//! The mixer handle: the fixed constants of the value domain, the
//! connection-limit setting, the exact wire commands of every operation,
//! the decoding of their replies, and the stepped fade ramp.
//!
//! Every operation of the surrounding client follows one shape: format a
//! command here, acquire a connection from the pool, write the line,
//! await exactly one classified reply from that connection's queue,
//! release (or discard) the connection, then decode the payload here.
//! The I/O between those steps is the runtime's; everything the
//! operation decides or computes is below, with its contract.

use vstd::prelude::*;
use vstd::arithmetic::div_mod::lemma_div_pos_is_pos;
use vstd::arithmetic::div_mod::lemma_fundamental_div_mod;
use vstd::arithmetic::div_mod::lemma_mod_pos_bound;
use vstd::arithmetic::mul::lemma_mul_inequality;
use vstd::arithmetic::mul::lemma_mul_nonnegative;
use vstd::arithmetic::mul::lemma_mul_unary_negation;

use crate::ascii::ascii_bytes;
use crate::ascii::bytes_of;
use crate::codec::LF;
use crate::codec::QUOTE;
use crate::codec::SP;
use crate::codec::decode_int_reply;
use crate::codec::decode_label_reply;
use crate::codec::format_i32;
use crate::codec::format_u64;
use crate::codec::is_i32_token;
use crate::codec::last_token;
use crate::codec::lemma_dec_lf_free;
use crate::codec::lemma_dec_nat_lf_free;
use crate::codec::lf_free;
use crate::codec::well_framed;
use crate::codec::remove_quotes;
use crate::codec::spec_dec_i32;
use crate::codec::spec_dec_nat;
use crate::codec::spec_label_of;
use crate::codec::spec_last_token;
use crate::codec::strip_quotes;
use crate::codec::token_val;
use crate::domain::LabelColor;
use crate::domain::SceneList;
use crate::error::Error;

verus! {

/// The wire form of a `get` command: `get <path> <channel> 0`, one
/// terminating line feed.
pub open spec fn spec_get_cmd(path: Seq<char>, channel: u16) -> Seq<u8> {
    bytes_of("get "@) + bytes_of(path) + seq![SP] + spec_dec_nat(channel as nat) + bytes_of(
        " 0\n"@,
    )
}

/// The wire form of a `set` command: `set <path> <channel> 0 <value>`,
/// one terminating line feed.
pub open spec fn spec_set_cmd(path: Seq<char>, channel: u16, value: Seq<u8>) -> Seq<u8> {
    bytes_of("set "@) + bytes_of(path) + seq![SP] + spec_dec_nat(channel as nat) + bytes_of(
        " 0 "@,
    ) + value + seq![LF]
}

/// The wire form of a scene recall: `ssrecall_ex <scene> <number>`, one
/// terminating line feed.
pub open spec fn spec_recall_cmd(scene: SceneList, number: u8) -> Seq<u8> {
    bytes_of("ssrecall_ex "@) + scene.spec_wire_name() + seq![SP] + spec_dec_nat(
        number as nat,
    ) + seq![LF]
}

fn get_cmd(path: &str, channel: u16) -> (v: Vec<u8>)
    requires
        path.is_ascii(),
    ensures
        v@ == spec_get_cmd(path@, channel),
{
    proof {
        reveal_strlit("get ");
        assert("get ".is_ascii());
        reveal_strlit(" 0\n");
        assert(" 0\n".is_ascii());
    }
    let mut v = ascii_bytes("get ");
    let mut p = ascii_bytes(path);
    v.append(&mut p);
    v.push(SP);
    let mut c = format_u64(channel as u64);
    v.append(&mut c);
    let mut tail = ascii_bytes(" 0\n");
    v.append(&mut tail);
    proof {
        assert(v@ =~= spec_get_cmd(path@, channel));
    }
    v
}

fn set_cmd(path: &str, channel: u16, value: Vec<u8>) -> (v: Vec<u8>)
    requires
        path.is_ascii(),
    ensures
        v@ == spec_set_cmd(path@, channel, value@),
{
    proof {
        reveal_strlit("set ");
        assert("set ".is_ascii());
        reveal_strlit(" 0 ");
        assert(" 0 ".is_ascii());
    }
    let ghost value0 = value@;
    let mut value = value;
    let mut v = ascii_bytes("set ");
    let mut p = ascii_bytes(path);
    v.append(&mut p);
    v.push(SP);
    let mut c = format_u64(channel as u64);
    v.append(&mut c);
    let mut mid = ascii_bytes(" 0 ");
    v.append(&mut mid);
    v.append(&mut value);
    v.push(LF);
    proof {
        assert(v@ =~= spec_set_cmd(path@, channel, value0));
    }
    v
}

/// A `get` command is one well-framed wire line whenever its path is.
pub proof fn lemma_get_cmd_well_framed(path: Seq<char>, channel: u16)
    requires
        lf_free(bytes_of(path)),
    ensures
        well_framed(spec_get_cmd(path, channel)),
{
    reveal_strlit("get ");
    reveal_strlit(" 0\n");
    lemma_dec_nat_lf_free(channel as nat);
    let g = bytes_of("get "@);
    let p = bytes_of(path);
    let d = spec_dec_nat(channel as nat);
    let t = bytes_of(" 0\n"@);
    let cmd = spec_get_cmd(path, channel);
    assert(g.len() == 4);
    assert(t.len() == 3);
    assert(t[2] == LF);
    assert(t[0] != LF && t[1] != LF);
    assert(lf_free(g));
    assert(cmd.last() == t[2]);
    assert forall|i: int| 0 <= i < cmd.len() - 1 implies cmd[i] != LF by {
        if i < 4 {
            assert(cmd[i] == g[i]);
        } else if i < 4 + p.len() {
            assert(cmd[i] == p[i - 4]);
        } else if i == 4 + p.len() {
            assert(cmd[i] == SP);
        } else if i < 5 + p.len() + d.len() {
            assert(cmd[i] == d[i - (5 + p.len())]);
        } else {
            assert(cmd[i] == t[i - (5 + p.len() + d.len())]);
        }
    }
}

/// A `set` command is one well-framed wire line whenever its path and
/// its value part are free of line feeds.
pub proof fn lemma_set_cmd_well_framed(path: Seq<char>, channel: u16, value: Seq<u8>)
    requires
        lf_free(bytes_of(path)),
        lf_free(value),
    ensures
        well_framed(spec_set_cmd(path, channel, value)),
{
    reveal_strlit("set ");
    reveal_strlit(" 0 ");
    lemma_dec_nat_lf_free(channel as nat);
    let g = bytes_of("set "@);
    let p = bytes_of(path);
    let d = spec_dec_nat(channel as nat);
    let m = bytes_of(" 0 "@);
    let cmd = spec_set_cmd(path, channel, value);
    assert(g.len() == 4);
    assert(m.len() == 3);
    assert(lf_free(g));
    assert(lf_free(m));
    assert(cmd.last() == LF);
    assert forall|i: int| 0 <= i < cmd.len() - 1 implies cmd[i] != LF by {
        if i < 4 {
            assert(cmd[i] == g[i]);
        } else if i < 4 + p.len() {
            assert(cmd[i] == p[i - 4]);
        } else if i == 4 + p.len() {
            assert(cmd[i] == SP);
        } else if i < 5 + p.len() + d.len() {
            assert(cmd[i] == d[i - (5 + p.len())]);
        } else if i < 8 + p.len() + d.len() {
            assert(cmd[i] == m[i - (5 + p.len() + d.len())]);
        } else {
            assert(cmd[i] == value[i - (8 + p.len() + d.len())]);
        }
    }
}

/// A scene recall is one well-framed wire line.
pub proof fn lemma_recall_cmd_well_framed(scene: SceneList, number: u8)
    ensures
        well_framed(spec_recall_cmd(scene, number)),
{
    reveal_strlit("ssrecall_ex ");
    scene.wire_name_lf_free();
    lemma_dec_nat_lf_free(number as nat);
    let g = bytes_of("ssrecall_ex "@);
    let w = scene.spec_wire_name();
    let d = spec_dec_nat(number as nat);
    let cmd = spec_recall_cmd(scene, number);
    assert(g.len() == 12);
    assert(lf_free(g));
    assert(cmd.last() == LF);
    assert forall|i: int| 0 <= i < cmd.len() - 1 implies cmd[i] != LF by {
        if i < 12 {
            assert(cmd[i] == g[i]);
        } else if i < 12 + w.len() {
            assert(cmd[i] == w[i - 12]);
        } else if i == 12 + w.len() {
            assert(cmd[i] == SP);
        } else {
            assert(cmd[i] == d[i - (13 + w.len())]);
        }
    }
}

/// Every command line the handle writes on the wire is terminated by
/// exactly one line feed and embeds none — given a label free of the
/// bytes its builder already excludes. This is what keeps one command
/// exactly one frame on the wire.
pub proof fn lemma_commands_well_framed(
    channel: u16,
    value: i32,
    muted: bool,
    color: LabelColor,
    label: Seq<u8>,
    scene_list: SceneList,
    scene_number: u8,
)
    requires
        !label.contains(LF),
        !label.contains(QUOTE),
    ensures
        well_framed(spec_get_cmd("MIXER:Current/InCh/Fader/Level"@, channel)),
        well_framed(
            spec_set_cmd("MIXER:Current/InCh/Fader/Level"@, channel, spec_dec_i32(value as int)),
        ),
        well_framed(spec_get_cmd("MIXER:Current/InCh/Fader/On"@, channel)),
        well_framed(
            spec_set_cmd(
                "MIXER:Current/InCh/Fader/On"@,
                channel,
                spec_dec_nat(if muted { 0nat } else { 1nat }),
            ),
        ),
        well_framed(spec_get_cmd("MIXER:Current/InCh/Label/Color"@, channel)),
        well_framed(
            spec_set_cmd(
                "MIXER:Current/InCh/Label/Color"@,
                channel,
                seq![QUOTE] + color.spec_wire_name() + seq![QUOTE],
            ),
        ),
        well_framed(spec_get_cmd("MIXER:Current/InCh/Label/Name"@, channel)),
        well_framed(
            spec_set_cmd(
                "MIXER:Current/InCh/Label/Name"@,
                channel,
                seq![QUOTE] + label + seq![QUOTE],
            ),
        ),
        well_framed(spec_recall_cmd(scene_list, scene_number)),
{
    reveal_strlit("MIXER:Current/InCh/Fader/Level");
    reveal_strlit("MIXER:Current/InCh/Fader/On");
    reveal_strlit("MIXER:Current/InCh/Label/Color");
    reveal_strlit("MIXER:Current/InCh/Label/Name");
    assert(lf_free(bytes_of("MIXER:Current/InCh/Fader/Level"@)));
    assert(lf_free(bytes_of("MIXER:Current/InCh/Fader/On"@)));
    assert(lf_free(bytes_of("MIXER:Current/InCh/Label/Color"@)));
    assert(lf_free(bytes_of("MIXER:Current/InCh/Label/Name"@)));
    lemma_dec_lf_free(value as int);
    lemma_dec_nat_lf_free(if muted { 0nat } else { 1nat });
    color.wire_name_lf_free();
    let quoted_color = seq![QUOTE] + color.spec_wire_name() + seq![QUOTE];
    assert(lf_free(quoted_color)) by {
        assert forall|i: int| 0 <= i < quoted_color.len() implies quoted_color[i] != LF by {
            if i == 0 || i == quoted_color.len() - 1 {
                assert(quoted_color[i] == QUOTE);
            } else {
                assert(quoted_color[i] == color.spec_wire_name()[i - 1]);
            }
        }
    }
    let quoted_label = seq![QUOTE] + label + seq![QUOTE];
    assert(lf_free(quoted_label)) by {
        assert forall|i: int| 0 <= i < quoted_label.len() implies quoted_label[i] != LF by {
            if i == 0 || i == quoted_label.len() - 1 {
                assert(quoted_label[i] == QUOTE);
            } else {
                assert(quoted_label[i] == label[i - 1]);
                if label[i - 1] == LF {
                    assert(label.contains(LF));
                }
            }
        }
    }
    lemma_get_cmd_well_framed("MIXER:Current/InCh/Fader/Level"@, channel);
    lemma_set_cmd_well_framed(
        "MIXER:Current/InCh/Fader/Level"@,
        channel,
        spec_dec_i32(value as int),
    );
    lemma_get_cmd_well_framed("MIXER:Current/InCh/Fader/On"@, channel);
    lemma_set_cmd_well_framed(
        "MIXER:Current/InCh/Fader/On"@,
        channel,
        spec_dec_nat(if muted { 0nat } else { 1nat }),
    );
    lemma_get_cmd_well_framed("MIXER:Current/InCh/Label/Color"@, channel);
    lemma_set_cmd_well_framed("MIXER:Current/InCh/Label/Color"@, channel, quoted_color);
    lemma_get_cmd_well_framed("MIXER:Current/InCh/Label/Name"@, channel);
    lemma_set_cmd_well_framed("MIXER:Current/InCh/Label/Name"@, channel, quoted_label);
    lemma_recall_cmd_well_framed(scene_list, scene_number);
}

/// The value a value is clamped to within `[lo, hi]`.
pub open spec fn spec_clamp(v: int, lo: int, hi: int) -> int {
    if v < lo {
        lo
    } else if v > hi {
        hi
    } else {
        v
    }
}

/// How many timed intermediate steps a fade of this duration has: one
/// per full 50 ms. A duration under 50 ms has none.
pub open spec fn spec_fade_steps(duration_ms: u64) -> int {
    duration_ms as int / 50
}

/// The per-step increment of a fade: the value difference divided by the
/// step count, rounded toward zero. The truncation means the ramp is
/// only approximately linear when the difference does not divide evenly;
/// that is the accepted behavior, the final step lands exactly.
pub open spec fn spec_fade_delta(ci: int, cf: int, steps: int) -> int {
    if steps <= 0 {
        0
    } else if cf >= ci {
        (cf - ci) / steps
    } else {
        -((ci - cf) / steps)
    }
}

/// `k` steps of the fade increment stay within the total difference.
proof fn lemma_fade_bound(ci: int, cf: int, steps: int, k: int)
    requires
        steps > 0,
        0 <= k <= steps,
    ensures
        cf >= ci ==> 0 <= k * spec_fade_delta(ci, cf, steps) <= cf - ci,
        cf < ci ==> cf - ci <= k * spec_fade_delta(ci, cf, steps) <= 0,
{
    if cf >= ci {
        let q = (cf - ci) / steps;
        lemma_div_pos_is_pos(cf - ci, steps);
        lemma_mul_nonnegative(k, q);
        lemma_mul_inequality(k, steps, q);
        lemma_fundamental_div_mod(cf - ci, steps);
        lemma_mod_pos_bound(cf - ci, steps);
    } else {
        let q = (ci - cf) / steps;
        lemma_div_pos_is_pos(ci - cf, steps);
        lemma_mul_nonnegative(k, q);
        lemma_mul_inequality(k, steps, q);
        lemma_fundamental_div_mod(ci - cf, steps);
        lemma_mod_pos_bound(ci - cf, steps);
        lemma_mul_unary_negation(k, q);
        assert(k * spec_fade_delta(ci, cf, steps) == -(k * q));
    }
}

/// The client handle of one console: the immutable numeric constants of
/// the fader value domain and the connection-limit setting. The
/// surrounding runtime pairs it with the target address and a
/// [`crate::pool::ConnectionPool`].
pub struct TFMixer {
    /// The highest fader code, +10.00 dB.
    pub max_fader_val: i32,
    /// The lowest ordinary fader code, -138.00 dB.
    pub min_fader_val: i32,
    /// The console's distinct "fully attenuated" code, outside the
    /// ordinary range.
    pub neg_inf_val: i32,
    /// How many connections the pool may hold open at once.
    pub connection_limit: u8,
}

impl TFMixer {
    /// The handle carries the console's fixed value-domain constants.
    pub open spec fn wf(self) -> bool {
        &&& self.max_fader_val == 1000
        &&& self.min_fader_val == -13800
        &&& self.neg_inf_val == -32768
    }

    /// A fresh handle: the fixed constants, and a connection limit of
    /// one until the caller raises it.
    pub fn new() -> (m: TFMixer)
        ensures
            m.wf(),
            m.connection_limit == 1,
    {
        TFMixer { max_fader_val: 1000, min_fader_val: -13800, neg_inf_val: -32768, connection_limit: 1 }
    }

    /// Sets how many connections the pool may hold open at once.
    pub fn set_connection_limit(&mut self, limit: u8)
        ensures
            final(self).connection_limit == limit,
            final(self).max_fader_val == old(self).max_fader_val,
            final(self).min_fader_val == old(self).min_fader_val,
            final(self).neg_inf_val == old(self).neg_inf_val,
    {
        self.connection_limit = limit;
    }

    /// The command that reads a channel's fader level.
    pub fn fader_level_command(&self, channel: u16) -> (v: Vec<u8>)
        ensures
            v@ == spec_get_cmd("MIXER:Current/InCh/Fader/Level"@, channel),
    {
        proof {
            reveal_strlit("MIXER:Current/InCh/Fader/Level");
            assert("MIXER:Current/InCh/Fader/Level".is_ascii());
        }
        get_cmd("MIXER:Current/InCh/Fader/Level", channel)
    }

    /// The command that sets a channel's fader level. The caller is
    /// responsible for the range; the console's accepted value is not
    /// read back.
    pub fn set_fader_level_command(&self, channel: u16, value: i32) -> (v: Vec<u8>)
        ensures
            v@ == spec_set_cmd(
                "MIXER:Current/InCh/Fader/Level"@,
                channel,
                spec_dec_i32(value as int),
            ),
    {
        proof {
            reveal_strlit("MIXER:Current/InCh/Fader/Level");
            assert("MIXER:Current/InCh/Fader/Level".is_ascii());
        }
        set_cmd("MIXER:Current/InCh/Fader/Level", channel, format_i32(value))
    }

    /// The command that reads a channel's fader on/off state.
    pub fn muted_command(&self, channel: u16) -> (v: Vec<u8>)
        ensures
            v@ == spec_get_cmd("MIXER:Current/InCh/Fader/On"@, channel),
    {
        proof {
            reveal_strlit("MIXER:Current/InCh/Fader/On");
            assert("MIXER:Current/InCh/Fader/On".is_ascii());
        }
        get_cmd("MIXER:Current/InCh/Fader/On", channel)
    }

    /// The command that mutes or unmutes a channel. The canonical
    /// polarity of the `Fader/On` field, used consistently here and in
    /// [`TFMixer::muted_from_reply`]: payload 0 means muted, nonzero
    /// means open.
    pub fn set_muted_command(&self, channel: u16, muted: bool) -> (v: Vec<u8>)
        ensures
            v@ == spec_set_cmd(
                "MIXER:Current/InCh/Fader/On"@,
                channel,
                spec_dec_nat(if muted { 0nat } else { 1nat }),
            ),
    {
        proof {
            reveal_strlit("MIXER:Current/InCh/Fader/On");
            assert("MIXER:Current/InCh/Fader/On".is_ascii());
        }
        let value: u64 = if muted { 0 } else { 1 };
        set_cmd("MIXER:Current/InCh/Fader/On", channel, format_u64(value))
    }

    /// The command that reads a channel's label color.
    pub fn color_command(&self, channel: u16) -> (v: Vec<u8>)
        ensures
            v@ == spec_get_cmd("MIXER:Current/InCh/Label/Color"@, channel),
    {
        proof {
            reveal_strlit("MIXER:Current/InCh/Label/Color");
            assert("MIXER:Current/InCh/Label/Color".is_ascii());
        }
        get_cmd("MIXER:Current/InCh/Label/Color", channel)
    }

    /// The command that sets a channel's label color; the color name is
    /// quoted on the wire.
    pub fn set_color_command(&self, channel: u16, color: LabelColor) -> (v: Vec<u8>)
        ensures
            v@ == spec_set_cmd(
                "MIXER:Current/InCh/Label/Color"@,
                channel,
                seq![QUOTE] + color.spec_wire_name() + seq![QUOTE],
            ),
    {
        proof {
            reveal_strlit("MIXER:Current/InCh/Label/Color");
            assert("MIXER:Current/InCh/Label/Color".is_ascii());
        }
        let mut value: Vec<u8> = Vec::new();
        value.push(QUOTE);
        let mut name = color.wire_name();
        value.append(&mut name);
        value.push(QUOTE);
        proof {
            assert(value@ =~= seq![QUOTE] + color.spec_wire_name() + seq![QUOTE]);
        }
        set_cmd("MIXER:Current/InCh/Label/Color", channel, value)
    }

    /// The command that reads a channel's label text.
    pub fn label_command(&self, channel: u16) -> (v: Vec<u8>)
        ensures
            v@ == spec_get_cmd("MIXER:Current/InCh/Label/Name"@, channel),
    {
        proof {
            reveal_strlit("MIXER:Current/InCh/Label/Name");
            assert("MIXER:Current/InCh/Label/Name".is_ascii());
        }
        get_cmd("MIXER:Current/InCh/Label/Name", channel)
    }

    /// The command that sets a channel's label text, quoted verbatim.
    /// The wire format has no escaping, so a label may not carry a quote
    /// (a known limitation of the protocol) nor a line feed — either
    /// would break the framing.
    pub fn set_label_command(&self, channel: u16, label: &Vec<u8>) -> (v: Vec<u8>)
        requires
            !label@.contains(QUOTE),
            !label@.contains(LF),
        ensures
            v@ == spec_set_cmd(
                "MIXER:Current/InCh/Label/Name"@,
                channel,
                seq![QUOTE] + label@ + seq![QUOTE],
            ),
    {
        proof {
            reveal_strlit("MIXER:Current/InCh/Label/Name");
            assert("MIXER:Current/InCh/Label/Name".is_ascii());
        }
        let mut value: Vec<u8> = Vec::new();
        value.push(QUOTE);
        value.extend_from_slice(label.as_slice());
        value.push(QUOTE);
        proof {
            assert(value@ =~= seq![QUOTE] + label@ + seq![QUOTE]);
        }
        set_cmd("MIXER:Current/InCh/Label/Name", channel, value)
    }

    /// The command that recalls a numbered scene from a scene list.
    pub fn recall_scene_command(&self, scene_list: SceneList, scene_number: u8) -> (v: Vec<u8>)
        ensures
            v@ == spec_recall_cmd(scene_list, scene_number),
    {
        proof {
            reveal_strlit("ssrecall_ex ");
            assert("ssrecall_ex ".is_ascii());
        }
        let mut v = ascii_bytes("ssrecall_ex ");
        let mut name = scene_list.wire_name();
        v.append(&mut name);
        v.push(SP);
        let mut num = format_u64(scene_number as u64);
        v.append(&mut num);
        v.push(LF);
        proof {
            assert(v@ =~= spec_recall_cmd(scene_list, scene_number));
        }
        v
    }

    /// Decodes a fader-level reply: the last token of the success line,
    /// as a signed fader code. The console itself enforces the range;
    /// the client does not re-validate reads.
    pub fn fader_level_from_reply(&self, line: &Vec<u8>) -> (r: Result<i32, Error>)
        ensures
            match r {
                Ok(v) => is_i32_token(spec_last_token(line@)) && v as int == token_val(
                    spec_last_token(line@),
                ),
                Err(e) => !is_i32_token(spec_last_token(line@)) && e is RCPParseError,
            },
    {
        decode_int_reply(line)
    }

    /// Decodes a fader on/off reply under the canonical polarity of
    /// [`TFMixer::set_muted_command`]: payload 0 means muted.
    pub fn muted_from_reply(&self, line: &Vec<u8>) -> (r: Result<bool, Error>)
        ensures
            match r {
                Ok(m) => is_i32_token(spec_last_token(line@)) && (m <==> token_val(
                    spec_last_token(line@),
                ) == 0),
                Err(e) => !is_i32_token(spec_last_token(line@)) && e is RCPParseError,
            },
    {
        match decode_int_reply(line) {
            Ok(v) => Ok(v == 0),
            Err(e) => Err(e),
        }
    }

    /// Decodes a label-color reply: the last token, unquoted, matched
    /// against the color names. An unknown name is an error, never a
    /// default.
    pub fn color_from_reply(&self, line: &Vec<u8>) -> (r: Result<LabelColor, Error>)
        ensures
            match r {
                Ok(c) => LabelColor::spec_of_wire(strip_quotes(spec_last_token(line@)))
                    == Some(c),
                Err(e) => LabelColor::spec_of_wire(strip_quotes(spec_last_token(line@)))
                    is None && e is LabelColorParseError,
            },
    {
        let t = last_token(line);
        let cleaned = remove_quotes(&t);
        LabelColor::from_wire(&cleaned)
    }

    /// Decodes a label reply: the line's quoted field, reassembled from
    /// its whitespace tokens.
    pub fn label_from_reply(&self, line: &Vec<u8>) -> (label: Vec<u8>)
        ensures
            label@ == spec_label_of(line@),
    {
        decode_label_reply(line)
    }

    /// The values of a stepped fade from `initial_value` to
    /// `final_value` over `duration_ms`: both ends clamped into the
    /// fader range, one intermediate value per full 50 ms advanced by
    /// the truncated per-step increment, and one unconditional terminal
    /// value — the clamped target, or the console's "fully attenuated"
    /// code when the target is exactly the minimum. The runtime issues
    /// one `set` per entry, the intermediate ones on a 50 ms tick.
    pub fn fade_plan(&self, initial_value: i32, final_value: i32, duration_ms: u64) -> (plan: Vec<
        i32,
    >)
        requires
            self.wf(),
            spec_fade_steps(duration_ms) < usize::MAX,
        ensures
            ({
                let lo = self.min_fader_val as int;
                let hi = self.max_fader_val as int;
                let ci = spec_clamp(initial_value as int, lo, hi);
                let cf = spec_clamp(final_value as int, lo, hi);
                let steps = spec_fade_steps(duration_ms);
                let delta = spec_fade_delta(ci, cf, steps);
                &&& plan@.len() == steps + 1
                &&& forall|k: int| 0 <= k < steps ==> #[trigger] plan@[k] as int == ci + k
                    * delta
                &&& plan@[steps] as int == if cf == lo {
                    self.neg_inf_val as int
                } else {
                    cf
                }
            }),
    {
        let lo = self.min_fader_val;
        let hi = self.max_fader_val;
        let ci = if initial_value < lo {
            lo
        } else if initial_value > hi {
            hi
        } else {
            initial_value
        };
        let cf = if final_value < lo {
            lo
        } else if final_value > hi {
            hi
        } else {
            final_value
        };
        let steps64: u64 = duration_ms / 50;
        let steps: usize = steps64 as usize;
        let ghost gsteps = spec_fade_steps(duration_ms);
        let delta: i32 = if steps == 0 {
            0
        } else if cf >= ci {
            (((cf - ci) as u64) / steps64) as i32
        } else {
            -((((ci - cf) as u64) / steps64) as i32)
        };
        proof {
            if steps > 0 {
                if cf >= ci {
                    lemma_div_pos_is_pos(cf as int - ci as int, gsteps);
                    lemma_fundamental_div_mod(cf as int - ci as int, gsteps);
                    lemma_mod_pos_bound(cf as int - ci as int, gsteps);
                } else {
                    lemma_div_pos_is_pos(ci as int - cf as int, gsteps);
                    lemma_fundamental_div_mod(ci as int - cf as int, gsteps);
                    lemma_mod_pos_bound(ci as int - cf as int, gsteps);
                }
            }
            assert(delta as int == spec_fade_delta(ci as int, cf as int, gsteps));
        }
        let mut plan: Vec<i32> = Vec::new();
        let mut cur: i32 = ci;
        let mut k: usize = 0;
        while k < steps
            invariant
                k <= steps,
                steps as int == gsteps,
                -13800 <= ci <= 1000,
                -13800 <= cf <= 1000,
                delta as int == spec_fade_delta(ci as int, cf as int, gsteps),
                plan@.len() == k,
                forall|j: int| 0 <= j < k ==> #[trigger] plan@[j] as int == ci + j * (
                delta as int),
                cur as int == ci + k * (delta as int),
            decreases steps - k,
        {
            plan.push(cur);
            proof {
                lemma_fade_bound(ci as int, cf as int, gsteps, k + 1);
                assert((k + 1) * (delta as int) == k * (delta as int) + delta as int)
                    by (nonlinear_arith);
            }
            cur = cur + delta;
            k += 1;
        }
        let last = if cf == lo {
            self.neg_inf_val
        } else {
            cf
        };
        plan.push(last);
        plan
    }
}

} // verus!
