use yamaha_rcp_rs::Error;
use yamaha_rcp_rs::LabelColor;
use yamaha_rcp_rs::SceneList;
use yamaha_rcp_rs::TFMixer;

#[test]
fn a_fresh_handle_carries_the_domain_constants() {
    let m = TFMixer::new();
    assert_eq!(m.max_fader_val, 1000);
    assert_eq!(m.min_fader_val, -13800);
    assert_eq!(m.neg_inf_val, -32768);
    assert_eq!(m.connection_limit, 1);
}

#[test]
fn the_connection_limit_is_a_setting() {
    let mut m = TFMixer::new();
    m.set_connection_limit(8);
    assert_eq!(m.connection_limit, 8);
    assert_eq!(m.max_fader_val, 1000);
}

#[test]
fn fader_commands_have_the_wire_shape() {
    let m = TFMixer::new();
    assert_eq!(
        m.fader_level_command(3),
        b"get MIXER:Current/InCh/Fader/Level 3 0\n".to_vec()
    );
    assert_eq!(
        m.set_fader_level_command(0, -1000),
        b"set MIXER:Current/InCh/Fader/Level 0 0 -1000\n".to_vec()
    );
    assert_eq!(
        m.set_fader_level_command(65535, 1000),
        b"set MIXER:Current/InCh/Fader/Level 65535 0 1000\n".to_vec()
    );
}

#[test]
fn mute_commands_use_the_documented_polarity() {
    let m = TFMixer::new();
    assert_eq!(
        m.muted_command(2),
        b"get MIXER:Current/InCh/Fader/On 2 0\n".to_vec()
    );
    assert_eq!(
        m.set_muted_command(2, true),
        b"set MIXER:Current/InCh/Fader/On 2 0 0\n".to_vec()
    );
    assert_eq!(
        m.set_muted_command(2, false),
        b"set MIXER:Current/InCh/Fader/On 2 0 1\n".to_vec()
    );
}

#[test]
fn color_commands_quote_the_color_name() {
    let m = TFMixer::new();
    assert_eq!(
        m.color_command(0),
        b"get MIXER:Current/InCh/Label/Color 0 0\n".to_vec()
    );
    assert_eq!(
        m.set_color_command(1, LabelColor::Blue),
        b"set MIXER:Current/InCh/Label/Color 1 0 \"Blue\"\n".to_vec()
    );
    assert_eq!(
        m.set_color_command(1, LabelColor::SkyBlue),
        b"set MIXER:Current/InCh/Label/Color 1 0 \"SkyBlue\"\n".to_vec()
    );
}

#[test]
fn label_commands_quote_the_label_verbatim() {
    let m = TFMixer::new();
    assert_eq!(
        m.label_command(0),
        b"get MIXER:Current/InCh/Label/Name 0 0\n".to_vec()
    );
    assert_eq!(
        m.set_label_command(1, &b"CHAN 2".to_vec()),
        b"set MIXER:Current/InCh/Label/Name 1 0 \"CHAN 2\"\n".to_vec()
    );
}

#[test]
fn scene_recall_has_the_wire_shape() {
    let m = TFMixer::new();
    assert_eq!(
        m.recall_scene_command(SceneList::A, 5),
        b"ssrecall_ex scene_a 5\n".to_vec()
    );
    assert_eq!(
        m.recall_scene_command(SceneList::B, 90),
        b"ssrecall_ex scene_b 90\n".to_vec()
    );
}

/// The echo of a mock console: an `OK` line whose last token is the value
/// the set command carried.
fn mock_echo(set_command: &[u8]) -> Vec<u8> {
    let text = std::str::from_utf8(set_command).unwrap();
    let text = text.trim_end_matches('\n');
    let mut echo = b"OK ".to_vec();
    echo.extend_from_slice(text.as_bytes());
    echo
}

#[test]
fn set_then_get_returns_the_value_set() {
    let m = TFMixer::new();
    for ch in [0u16, 1, 39] {
        for v in [-13800i32, -4000, -83, -1, 0, 1, 999, 1000] {
            let cmd = m.set_fader_level_command(ch, v);
            let reply = mock_echo(&cmd);
            assert_eq!(m.fader_level_from_reply(&reply).unwrap(), v);
        }
    }
}

#[test]
fn set_then_read_label_returns_the_label() {
    let m = TFMixer::new();
    for label in ["solo", "CHAN 2", "lead vocal mic", "a  b", " edge ", ""] {
        let cmd = m.set_label_command(5, &label.as_bytes().to_vec());
        let reply = mock_echo(&cmd);
        assert_eq!(m.label_from_reply(&reply), label.as_bytes().to_vec());
    }
}

#[test]
fn mute_replies_decode_by_the_documented_polarity() {
    let m = TFMixer::new();
    assert_eq!(m.muted_from_reply(&b"OK path 0".to_vec()).unwrap(), true);
    assert_eq!(m.muted_from_reply(&b"OK path 1".to_vec()).unwrap(), false);
    assert_eq!(m.muted_from_reply(&b"OK path 2".to_vec()).unwrap(), false);
    assert!(matches!(
        m.muted_from_reply(&b"OK path maybe".to_vec()),
        Err(Error::RCPParseError(_))
    ));
}

#[test]
fn color_replies_unquote_and_parse() {
    let m = TFMixer::new();
    assert_eq!(
        m.color_from_reply(&b"OK path \"Blue\"".to_vec()).unwrap(),
        LabelColor::Blue
    );
    assert_eq!(
        m.color_from_reply(&b"OK path Green".to_vec()).unwrap(),
        LabelColor::Green
    );
    assert!(matches!(
        m.color_from_reply(&b"OK path \"Beige\"".to_vec()),
        Err(Error::LabelColorParseError(_))
    ));
}

#[test]
fn label_replies_reassemble_the_quoted_field() {
    let m = TFMixer::new();
    assert_eq!(
        m.label_from_reply(&b"OK path \"CHAN 2\"".to_vec()),
        b"CHAN 2".to_vec()
    );
}

#[test]
fn a_three_second_fade_takes_sixty_steps_and_lands_exactly() {
    let m = TFMixer::new();
    let plan = m.fade_plan(1000, -4000, 3000);
    assert_eq!(plan.len(), 61);
    assert_eq!(plan.len() - 1, 60);
    assert_eq!(plan[0], 1000);
    assert_eq!(plan[1], 1000 - 5000 / 60);
    assert_eq!(*plan.last().unwrap(), -4000);
}

#[test]
fn a_fade_to_the_minimum_ends_on_the_sentinel() {
    let m = TFMixer::new();
    let plan = m.fade_plan(1000, -13800, 1000);
    assert_eq!(plan.len(), 21);
    assert_eq!(plan.len() - 1, 20);
    assert_eq!(*plan.last().unwrap(), -32768);
    assert!(plan[..20].iter().all(|v| *v != -32768));
}

#[test]
fn a_short_fade_issues_only_the_terminal_command() {
    let m = TFMixer::new();
    let plan = m.fade_plan(-2000, -6000, 49);
    assert_eq!(plan, vec![-6000]);
}

#[test]
fn fade_ends_clamp_into_the_fader_range() {
    let m = TFMixer::new();
    let plan = m.fade_plan(5000, 2000, 100);
    assert_eq!(plan, vec![1000, 1000, 1000]);
    let plan = m.fade_plan(0, -20000, 100);
    assert_eq!(*plan.last().unwrap(), -32768);
}

#[test]
fn a_flat_fade_holds_the_level() {
    let m = TFMixer::new();
    let plan = m.fade_plan(-500, -500, 200);
    assert_eq!(plan, vec![-500, -500, -500, -500, -500]);
}
