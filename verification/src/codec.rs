//! Line codec for the console's newline-delimited ASCII protocol.
//!
//! Commands are single lines `<verb> <path> <index> <subindex> [<value>]`
//! terminated by one line feed. Replies are lines beginning with the
//! literal `OK` (success; the remaining space-separated tokens echo the
//! path and carry the value last) or `ERROR` (failure; the remainder is
//! the message). The byte-sequence model of a line is its split on the
//! space byte, [`spec_split`]; the same splitting function, applied to
//! the line-feed byte, models how the reader frames the raw stream.

use vstd::prelude::*;

use crate::ascii::ascii_bytes;
use crate::ascii::bytes_of;
use crate::error::Error;

verus! {

/// The space byte, the token separator of the wire format.
pub const SP: u8 = 32;

/// The line-feed byte, the frame terminator of the wire format.
pub const LF: u8 = 10;

/// The double-quote byte, the delimiter of label fields.
pub const QUOTE: u8 = 34;

/// The minus sign.
pub const MINUS: u8 = 45;

/// The plus sign.
pub const PLUS: u8 = 43;

/// The digit zero.
pub const ZERO: u8 = 48;

/// `s` split on the delimiter `d`, every piece kept, empty pieces
/// included. The result always has at least one element; a trailing
/// delimiter contributes a final empty piece.
pub open spec fn spec_split(s: Seq<u8>, d: u8) -> Seq<Seq<u8>>
    decreases s.len(),
{
    if s.len() == 0 {
        seq![Seq::<u8>::empty()]
    } else {
        let prefix = spec_split(s.drop_last(), d);
        if s.last() == d {
            prefix.push(Seq::<u8>::empty())
        } else {
            prefix.update(prefix.len() - 1, prefix.last().push(s.last()))
        }
    }
}

/// A split is never empty: even the empty sequence has one (empty)
/// piece.
pub proof fn lemma_split_len(s: Seq<u8>, d: u8)
    ensures
        spec_split(s, d).len() >= 1,
    decreases s.len(),
{
    if s.len() > 0 {
        lemma_split_len(s.drop_last(), d);
    }
}

/// The whitespace tokens of one line.
pub open spec fn spec_tokens(s: Seq<u8>) -> Seq<Seq<u8>> {
    spec_split(s, SP)
}

/// The token after the last space of a line; replies carry their value
/// there.
pub open spec fn spec_last_token(s: Seq<u8>) -> Seq<u8> {
    spec_tokens(s).last()
}

/// Whether the line is a success reply: it begins with the literal `OK`.
pub open spec fn is_ok_line(s: Seq<u8>) -> bool {
    bytes_of("OK"@).is_prefix_of(s)
}

/// Whether the line is a failure reply: it begins with the literal
/// `ERROR`.
pub open spec fn is_error_line(s: Seq<u8>) -> bool {
    bytes_of("ERROR"@).is_prefix_of(s)
}

/// Whether the line is a reply at all; every other line is unsolicited
/// console output and is discarded by the reader.
pub open spec fn is_reply(s: Seq<u8>) -> bool {
    is_ok_line(s) || is_error_line(s)
}

/// Whether `p` is a prefix of `line`.
fn has_prefix(line: &Vec<u8>, p: &Vec<u8>) -> (r: bool)
    ensures
        r == p@.is_prefix_of(line@),
{
    if p.len() > line.len() {
        return false;
    }
    let mut i: usize = 0;
    while i < p.len()
        invariant
            i <= p.len() <= line.len(),
            forall|j: int| 0 <= j < i ==> line@[j] == p@[j],
        decreases p.len() - i,
    {
        if line[i] != p[i] {
            assert(line@.subrange(0, p@.len() as int)[i as int] != p@[i as int]);
            return false;
        }
        i += 1;
    }
    assert(p@ =~= line@.subrange(0, p@.len() as int));
    true
}

/// Classifies one framed line as the reader does: only lines that begin
/// with `OK` or `ERROR` are replies and reach a caller.
pub fn is_reply_line(line: &Vec<u8>) -> (r: bool)
    ensures
        r == is_reply(line@),
{
    proof {
        reveal_strlit("OK");
        reveal_strlit("ERROR");
        assert("OK".is_ascii());
        assert("ERROR".is_ascii());
    }
    let ok = ascii_bytes("OK");
    let err = ascii_bytes("ERROR");
    has_prefix(line, &ok) || has_prefix(line, &err)
}

/// A copy of `v[from..to]`.
pub fn sub_vec(v: &Vec<u8>, from: usize, to: usize) -> (r: Vec<u8>)
    requires
        from <= to <= v.len(),
    ensures
        r@ == v@.subrange(from as int, to as int),
{
    let mut r: Vec<u8> = Vec::new();
    let mut i: usize = from;
    while i < to
        invariant
            from <= i <= to <= v.len(),
            r@ == v@.subrange(from as int, i as int),
        decreases to - i,
    {
        r.push(v[i]);
        assert(r@ =~= v@.subrange(from as int, i + 1));
        i += 1;
    }
    r
}

/// Byte-for-byte equality of two vectors.
pub fn eq_bytes(a: &Vec<u8>, b: &Vec<u8>) -> (r: bool)
    ensures
        r == (a@ == b@),
{
    if a.len() != b.len() {
        return false;
    }
    let mut i: usize = 0;
    while i < a.len()
        invariant
            i <= a.len() == b.len(),
            forall|j: int| 0 <= j < i ==> a@[j] == b@[j],
        decreases a.len() - i,
    {
        if a[i] != b[i] {
            return false;
        }
        i += 1;
    }
    assert(a@ =~= b@);
    true
}

/// The message of a failure reply: everything after the `ERROR` word,
/// less one separating space.
pub open spec fn spec_error_message(line: Seq<u8>) -> Seq<u8> {
    let rest = line.skip("ERROR"@.len() as int);
    if rest.len() > 0 && rest[0] == SP {
        rest.drop_first()
    } else {
        rest
    }
}

/// Classifies a reply line the way a caller awaiting a response does: a
/// success reply is handed back whole, a failure reply becomes a protocol
/// error carrying the remote message, and a line of neither shape is a
/// framing error carrying the line itself.
pub fn classify_reply(line: Vec<u8>) -> (r: Result<Vec<u8>, Error>)
    ensures
        is_error_line(line@) ==> (r matches Err(e) && e matches Error::RCPError(m)
            && m@ == spec_error_message(line@)),
        !is_error_line(line@) && is_ok_line(line@) ==> (r matches Ok(v) && v@ == line@),
        !is_reply(line@) ==> (r matches Err(e) && e matches Error::RCPError(m)
            && m@ == line@),
{
    proof {
        reveal_strlit("OK");
        reveal_strlit("ERROR");
        assert("OK".is_ascii());
        assert("ERROR".is_ascii());
    }
    let err_p = ascii_bytes("ERROR");
    if has_prefix(&line, &err_p) {
        let mut from: usize = 5;
        if line.len() > 5 && line[5] == SP {
            from = 6;
        }
        let msg = sub_vec(&line, from, line.len());
        proof {
            assert(msg@ =~= spec_error_message(line@));
        }
        return Err(Error::RCPError(msg));
    }
    let ok_p = ascii_bytes("OK");
    if has_prefix(&line, &ok_p) {
        Ok(line)
    } else {
        Err(Error::RCPError(line))
    }
}

/// Classifies what a receive on a connection's reply queue produced: a
/// closed queue (the reader task ended on end-of-stream or an I/O error)
/// is a network error, fatal to the connection; a line is classified as
/// [`classify_reply`] does.
pub fn classify_recv(received: Option<Vec<u8>>) -> (r: Result<Vec<u8>, Error>)
    ensures
        received is None ==> (r matches Err(e) && e is NetworkError),
        received matches Some(line) ==> {
            &&& is_error_line(line@) ==> (r matches Err(e) && e matches Error::RCPError(m)
                && m@ == spec_error_message(line@))
            &&& !is_error_line(line@) && is_ok_line(line@) ==> (r matches Ok(v)
                && v@ == line@)
            &&& !is_reply(line@) ==> (r matches Err(e) && e matches Error::RCPError(m)
                && m@ == line@)
        },
{
    match received {
        Some(line) => classify_reply(line),
        None => {
            proof {
                reveal_strlit("reply queue closed");
                assert("reply queue closed".is_ascii());
            }
            Err(Error::NetworkError(ascii_bytes("reply queue closed")))
        },
    }
}

/// Whether the byte is an ASCII decimal digit.
pub open spec fn is_digit(b: u8) -> bool {
    ZERO <= b <= ZERO + 9
}

/// Whether every byte of the sequence is a decimal digit.
pub open spec fn all_digits(s: Seq<u8>) -> bool {
    forall|i: int| 0 <= i < s.len() ==> is_digit(#[trigger] s[i])
}

/// The number written by a sequence of decimal digits, most significant
/// first.
pub open spec fn digits_val(s: Seq<u8>) -> int
    decreases s.len(),
{
    if s.len() == 0 {
        0
    } else {
        digits_val(s.drop_last()) * 10 + (s.last() - ZERO)
    }
}

/// The magnitude part of an integer token: the token less one leading
/// sign.
pub open spec fn int_mag(s: Seq<u8>) -> Seq<u8> {
    if s.len() > 0 && (s[0] == PLUS || s[0] == MINUS) {
        s.drop_first()
    } else {
        s
    }
}

/// Whether an integer token is negative.
pub open spec fn int_neg(s: Seq<u8>) -> bool {
    s.len() > 0 && s[0] == MINUS
}

/// The value written by an integer token.
pub open spec fn token_val(s: Seq<u8>) -> int {
    if int_neg(s) {
        -digits_val(int_mag(s))
    } else {
        digits_val(int_mag(s))
    }
}

/// Whether the token is a well-formed decimal integer that fits an
/// `i32`: an optional sign, at least one digit, nothing else, value in
/// range.
pub open spec fn is_i32_token(s: Seq<u8>) -> bool {
    int_mag(s).len() > 0 && all_digits(int_mag(s)) && i32::MIN <= token_val(s) <= i32::MAX
}

proof fn lemma_digits_val_nonneg(s: Seq<u8>)
    requires
        all_digits(s),
    ensures
        digits_val(s) >= 0,
    decreases s.len(),
{
    if s.len() > 0 {
        assert(all_digits(s.drop_last())) by {
            assert forall|j: int| 0 <= j < s.drop_last().len() implies is_digit(
                #[trigger] s.drop_last()[j],
            ) by {
                assert(s.drop_last()[j] == s[j]);
            }
        }
        lemma_digits_val_nonneg(s.drop_last());
        assert(is_digit(s[s.len() - 1]));
    }
}

/// A decimal number never shrinks as digits are appended.
proof fn lemma_digits_val_grows(s: Seq<u8>, i: int)
    requires
        all_digits(s),
        0 <= i <= s.len(),
    ensures
        digits_val(s.take(i)) <= digits_val(s),
    decreases s.len(),
{
    if i == s.len() {
        assert(s.take(i) =~= s);
    } else {
        assert(all_digits(s.drop_last())) by {
            assert forall|j: int| 0 <= j < s.drop_last().len() implies is_digit(
                #[trigger] s.drop_last()[j],
            ) by {
                assert(s.drop_last()[j] == s[j]);
            }
        }
        assert(s.drop_last().take(i) =~= s.take(i));
        lemma_digits_val_grows(s.drop_last(), i);
        lemma_digits_val_nonneg(s.drop_last());
        assert(is_digit(s[s.len() - 1]));
    }
}

/// Parses a reply's value token as a signed 32-bit integer, exactly as
/// the console writes them: an optional sign, then decimal digits. The
/// result is `Ok` if and only if the token has that shape and the value
/// fits.
pub fn parse_i32(t: &Vec<u8>) -> (r: Result<i32, Error>)
    ensures
        match r {
            Ok(v) => is_i32_token(t@) && v as int == token_val(t@),
            Err(e) => !is_i32_token(t@) && e is RCPParseError,
        },
{
    let n = t.len();
    let mut idx: usize = 0;
    if n > 0 && (t[0] == PLUS || t[0] == MINUS) {
        idx = 1;
    }
    let neg = n > 0 && t[0] == MINUS;
    let ghost mag = int_mag(t@);
    proof {
        assert(mag =~= t@.skip(idx as int));
    }
    if idx == n {
        return Err(Error::RCPParseError(sub_vec(t, 0, n)));
    }
    let mut acc: u64 = 0;
    let mut i: usize = idx;
    while i < n
        invariant
            idx <= i <= n,
            n == t@.len(),
            mag == int_mag(t@),
            mag =~= t@.skip(idx as int),
            all_digits(mag.take(i - idx)),
            acc == digits_val(mag.take(i - idx)),
            acc <= 0x8000_0000,
        decreases n - i,
    {
        let b = t[i];
        proof {
            assert(mag[i - idx] == t@[i as int]);
        }
        if b < ZERO || b > ZERO + 9 {
            proof {
                assert(!is_digit(mag[i - idx]));
            }
            return Err(Error::RCPParseError(sub_vec(t, 0, n)));
        }
        acc = acc * 10 + ((b - ZERO) as u64);
        proof {
            assert(mag.take(i + 1 - idx).drop_last() =~= mag.take(i - idx));
            assert(mag.take(i + 1 - idx).last() == b);
            assert(all_digits(mag.take(i + 1 - idx)));
        }
        i += 1;
        if acc > 0x8000_0000 {
            proof {
                if all_digits(mag) {
                    lemma_digits_val_grows(mag, i - idx);
                }
            }
            return Err(Error::RCPParseError(sub_vec(t, 0, n)));
        }
    }
    proof {
        assert(mag.take(n - idx) =~= mag);
    }
    if neg {
        Ok((-(acc as i64)) as i32)
    } else if acc > 0x7fff_ffff {
        Err(Error::RCPParseError(sub_vec(t, 0, n)))
    } else {
        Ok(acc as i32)
    }
}

/// The decimal digits of a natural number, most significant first.
pub open spec fn spec_dec_nat(n: nat) -> Seq<u8>
    decreases n,
{
    if n < 10 {
        seq![(ZERO + n) as u8]
    } else {
        spec_dec_nat(n / 10).push((ZERO + n % 10) as u8)
    }
}

/// The decimal writing of a signed value: a minus sign for a negative
/// value, then the digits of its magnitude.
pub open spec fn spec_dec_i32(v: int) -> Seq<u8> {
    if v < 0 {
        seq![MINUS] + spec_dec_nat((-v) as nat)
    } else {
        spec_dec_nat(v as nat)
    }
}

/// The sequence reversed.
pub open spec fn seq_rev(s: Seq<u8>) -> Seq<u8> {
    Seq::new(s.len(), |i: int| s[s.len() - 1 - i])
}

/// Writes a natural number in decimal.
pub fn format_u64(n: u64) -> (v: Vec<u8>)
    ensures
        v@ == spec_dec_nat(n as nat),
{
    let mut low: Vec<u8> = Vec::new();
    let mut m: u64 = n;
    while m >= 10
        invariant
            spec_dec_nat(n as nat) == spec_dec_nat(m as nat) + seq_rev(low@),
        decreases m,
    {
        let d = (m % 10) as u8;
        low.push(ZERO + d);
        proof {
            assert(seq_rev(low@) =~= seq![(ZERO + (m as nat) % 10) as u8] + seq_rev(
                low@.drop_last(),
            ));
            assert(spec_dec_nat((m as nat) / 10).push((ZERO + (m as nat) % 10) as u8)
                + seq_rev(low@.drop_last()) =~= spec_dec_nat((m as nat) / 10) + seq_rev(
                low@,
            ));
        }
        m = m / 10;
    }
    let mut v: Vec<u8> = Vec::new();
    v.push(ZERO + (m as u8));
    proof {
        assert(v@ =~= spec_dec_nat(m as nat));
    }
    let mut k: usize = 0;
    while k < low.len()
        invariant
            k <= low@.len(),
            spec_dec_nat(n as nat) == spec_dec_nat(m as nat) + seq_rev(low@),
            v@ == spec_dec_nat(m as nat) + seq_rev(low@).take(k as int),
        decreases low.len() - k,
    {
        v.push(low[low.len() - 1 - k]);
        proof {
            assert(v@ =~= spec_dec_nat(m as nat) + seq_rev(low@).take(k + 1));
        }
        k += 1;
    }
    proof {
        assert(seq_rev(low@).take(low@.len() as int) =~= seq_rev(low@));
    }
    v
}

/// Writes a signed 32-bit value in decimal.
pub fn format_i32(v: i32) -> (r: Vec<u8>)
    ensures
        r@ == spec_dec_i32(v as int),
{
    if v >= 0 {
        format_u64(v as u64)
    } else {
        let mag: u64 = (-(v as i64)) as u64;
        let mut r: Vec<u8> = Vec::new();
        r.push(MINUS);
        let mut digits = format_u64(mag);
        r.append(&mut digits);
        proof {
            assert(r@ =~= spec_dec_i32(v as int));
        }
        r
    }
}

/// The frames of a raw byte stream: its pieces between line-feed bytes.
/// All but the last are complete lines; the last is the still-unterminated
/// remainder.
pub open spec fn spec_frames(s: Seq<u8>) -> Seq<Seq<u8>> {
    spec_split(s, LF)
}

/// Of a sequence of complete lines, those the reader forwards: the lines
/// that classify as replies, in order. Everything else is unsolicited
/// console output and is dropped.
pub open spec fn spec_forwarded(lines: Seq<Seq<u8>>) -> Seq<Seq<u8>>
    decreases lines.len(),
{
    if lines.len() == 0 {
        Seq::empty()
    } else if is_reply(lines.last()) {
        spec_forwarded(lines.drop_last()).push(lines.last())
    } else {
        spec_forwarded(lines.drop_last())
    }
}

/// No piece of a split contains the delimiter: every frame is a whole
/// line, and the unterminated remainder can be carried into the next
/// read.
#[verifier::spinoff_prover]
pub proof fn lemma_split_pieces_free(s: Seq<u8>, d: u8)
    ensures
        forall|i: int, j: int|
            0 <= i < spec_split(s, d).len() && 0 <= j < spec_split(s, d)[i].len()
                ==> spec_split(s, d)[i][j] != d,
    decreases s.len(),
{
    if s.len() > 0 {
        lemma_split_pieces_free(s.drop_last(), d);
        lemma_split_len(s.drop_last(), d);
        let prefix = spec_split(s.drop_last(), d);
        let c = s.last();
        assert forall|i: int, j: int|
            0 <= i < spec_split(s, d).len() && 0 <= j < spec_split(s, d)[i].len() implies spec_split(
            s,
            d,
        )[i][j] != d by {
            if c == d {
                if i < prefix.len() {
                    assert(spec_split(s, d)[i] == prefix[i]);
                } else {
                    assert(spec_split(s, d)[i] =~= Seq::<u8>::empty());
                }
            } else {
                if i < prefix.len() - 1 {
                    assert(spec_split(s, d)[i] == prefix[i]);
                } else {
                    assert(spec_split(s, d)[i] == prefix.last().push(c));
                    if j < prefix.last().len() {
                        assert(prefix.last().push(c)[j] == prefix[prefix.len() - 1][j]);
                    } else {
                        assert(prefix.last().push(c)[j] == c);
                    }
                }
            }
        }
    }
}

/// The reader forwards reply lines and nothing else.
pub proof fn lemma_forwarded_are_replies(lines: Seq<Seq<u8>>)
    ensures
        forall|i: int|
            0 <= i < spec_forwarded(lines).len() ==> is_reply(
                #[trigger] spec_forwarded(lines)[i],
            ),
    decreases lines.len(),
{
    if lines.len() > 0 {
        lemma_forwarded_are_replies(lines.drop_last());
        let f0 = spec_forwarded(lines.drop_last());
        assert forall|i: int|
            0 <= i < spec_forwarded(lines).len() implies is_reply(
            #[trigger] spec_forwarded(lines)[i],
        ) by {
            if is_reply(lines.last()) {
                if i < f0.len() {
                    assert(spec_forwarded(lines)[i] == f0[i]);
                } else {
                    assert(spec_forwarded(lines)[i] == lines.last());
                }
            } else {
                assert(spec_forwarded(lines)[i] == f0[i]);
            }
        }
    }
}

/// One step of the reader task: the bytes read so far but not yet
/// terminated (`pending`), extended by a freshly read `chunk`, are framed
/// on line feeds. The first result holds the complete reply lines to
/// forward on the connection's queue; the second holds the new
/// unterminated remainder.
pub fn reader_ingest(pending: Vec<u8>, chunk: &Vec<u8>) -> (r: (Vec<Vec<u8>>, Vec<u8>))
    ensures
        r.0.deep_view() == spec_forwarded(spec_frames(pending@ + chunk@).drop_last()),
        r.1@ == spec_frames(pending@ + chunk@).last(),
{
    let ghost all = pending@ + chunk@;
    let mut data = pending;
    data.extend_from_slice(chunk.as_slice());
    proof {
        assert(data@ == all);
    }
    let mut out: Vec<Vec<u8>> = Vec::new();
    let mut cur: Vec<u8> = Vec::new();
    let mut i: usize = 0;
    while i < data.len()
        invariant
            i <= data@.len(),
            data@ == all,
            out.deep_view() == spec_forwarded(spec_frames(all.take(i as int)).drop_last()),
            cur@ == spec_frames(all.take(i as int)).last(),
        decreases data.len() - i,
    {
        let ghost fr = spec_frames(all.take(i as int));
        proof {
            lemma_split_len(all.take(i as int), LF);
            assert(all.take(i + 1).drop_last() =~= all.take(i as int));
        }
        let b = data[i];
        if b == LF {
            proof {
                assert(spec_frames(all.take(i + 1)).drop_last() =~= fr);
            }
            let ghost out0 = out.deep_view();
            if is_reply_line(&cur) {
                let ghost curv = cur@;
                out.push(cur);
                proof {
                    assert(out.deep_view() =~~= out0.push(curv));
                }
            }
            cur = Vec::new();
        } else {
            cur.push(b);
            proof {
                assert(spec_frames(all.take(i + 1)).drop_last() =~= fr.drop_last());
                assert(spec_frames(all.take(i + 1)).last() == fr.last().push(b));
            }
        }
        i += 1;
    }
    proof {
        assert(all.take(all.len() as int) =~= all);
    }
    (out, cur)
}

/// Whether a token is a complete quoted field: it begins and ends with a
/// quote of its own.
pub open spec fn token_complete(t: Seq<u8>) -> bool {
    t.len() >= 2 && t[0] == QUOTE && t.last() == QUOTE
}

/// Whether a token opens a quoted field.
pub open spec fn token_opens(t: Seq<u8>) -> bool {
    t.len() >= 1 && t[0] == QUOTE
}

/// Whether a token closes a quoted field.
pub open spec fn token_closes(t: Seq<u8>) -> bool {
    t.len() >= 1 && t.last() == QUOTE
}

/// The fragments collected inside an open quoted field: tokens are taken
/// whole until one ends with a quote, which is taken without it and ends
/// the field.
pub open spec fn quote_fragments_in(ts: Seq<Seq<u8>>) -> Seq<Seq<u8>>
    decreases ts.len(),
{
    if ts.len() == 0 {
        Seq::empty()
    } else if token_closes(ts[0]) {
        seq![ts[0].drop_last()]
    } else {
        seq![ts[0]] + quote_fragments_in(ts.drop_first())
    }
}

/// The fragments of the first quoted field among the tokens. The wire
/// format has no escaping, only quote-delimited boundaries around
/// otherwise space-delimited fields: a token both opening and closing a
/// quote is the whole field; a token opening one starts an accumulation
/// that [`quote_fragments_in`] finishes; tokens before any quote carry no
/// part of the field.
pub open spec fn quote_fragments(ts: Seq<Seq<u8>>) -> Seq<Seq<u8>>
    decreases ts.len(),
{
    if ts.len() == 0 {
        Seq::empty()
    } else if token_complete(ts[0]) {
        seq![ts[0].subrange(1, ts[0].len() - 1)]
    } else if token_opens(ts[0]) {
        seq![ts[0].drop_first()] + quote_fragments_in(ts.drop_first())
    } else {
        quote_fragments(ts.drop_first())
    }
}

/// The fragments joined back with single spaces.
pub open spec fn join_sp(frags: Seq<Seq<u8>>) -> Seq<u8>
    decreases frags.len(),
{
    if frags.len() == 0 {
        Seq::empty()
    } else if frags.len() == 1 {
        frags[0]
    } else {
        join_sp(frags.drop_last()) + seq![SP] + frags.last()
    }
}

/// The quoted label carried by a reply line: its tokens' first quoted
/// field, fragments joined with single spaces. A line with no quoted
/// field yields the empty label.
pub open spec fn spec_label_of(line: Seq<u8>) -> Seq<u8> {
    join_sp(quote_fragments(spec_tokens(line)))
}

/// The whitespace tokens of a line, as the reassembly scans them.
pub fn split_tokens(line: &Vec<u8>) -> (ts: Vec<Vec<u8>>)
    ensures
        ts.deep_view() == spec_tokens(line@),
{
    let mut out: Vec<Vec<u8>> = Vec::new();
    let mut cur: Vec<u8> = Vec::new();
    let mut i: usize = 0;
    while i < line.len()
        invariant
            i <= line@.len(),
            out.deep_view() == spec_tokens(line@.take(i as int)).drop_last(),
            cur@ == spec_tokens(line@.take(i as int)).last(),
        decreases line.len() - i,
    {
        let ghost tk = spec_tokens(line@.take(i as int));
        proof {
            lemma_split_len(line@.take(i as int), SP);
            assert(line@.take(i + 1).drop_last() =~= line@.take(i as int));
        }
        let b = line[i];
        if b == SP {
            proof {
                assert(spec_tokens(line@.take(i + 1)).drop_last() =~= tk);
            }
            let ghost out0 = out.deep_view();
            let ghost curv = cur@;
            out.push(cur);
            proof {
                assert(out.deep_view() =~~= out0.push(curv));
            }
            cur = Vec::new();
        } else {
            cur.push(b);
            proof {
                assert(spec_tokens(line@.take(i + 1)).drop_last() =~= tk.drop_last());
                assert(spec_tokens(line@.take(i + 1)).last() == tk.last().push(b));
            }
        }
        i += 1;
    }
    proof {
        assert(line@.take(line@.len() as int) =~= line@);
        lemma_split_len(line@, SP);
    }
    let ghost out0 = out.deep_view();
    let ghost curv = cur@;
    out.push(cur);
    proof {
        assert(out.deep_view() =~~= out0.push(curv));
        assert(out0.push(curv) =~~= spec_tokens(line@));
    }
    out
}

/// Reassembles the first quoted field of the tokens, joining its
/// fragments with single spaces — the inverse of how a label with
/// embedded spaces was split by whitespace tokenization.
pub fn reassemble_label(tokens: &Vec<Vec<u8>>) -> (label: Vec<u8>)
    ensures
        label@ == join_sp(quote_fragments(tokens.deep_view())),
{
    let ghost ts = tokens.deep_view();
    proof {
        assert(ts.skip(0) =~= ts);
    }
    let mut frags: Vec<Vec<u8>> = Vec::new();
    let mut looking = false;
    let mut done = false;
    let mut i: usize = 0;
    while i < tokens.len() && !done
        invariant
            i <= ts.len(),
            ts == tokens.deep_view(),
            done ==> quote_fragments(ts) == frags.deep_view(),
            !done && looking ==> quote_fragments(ts) == frags.deep_view()
                + quote_fragments_in(ts.skip(i as int)),
            !done && !looking ==> frags@.len() == 0 && quote_fragments(ts)
                == quote_fragments(ts.skip(i as int)),
        decreases ts.len() - i,
    {
        let t = &tokens[i];
        let ghost rest = ts.skip(i as int);
        proof {
            assert(rest[0] == ts[i as int]);
            assert(rest.drop_first() =~= ts.skip(i + 1));
        }
        let ghost frags0 = frags.deep_view();
        let tlen = t.len();
        if !looking && tlen >= 2 && t[0] == QUOTE && t[tlen - 1] == QUOTE {
            let ghost fv = ts[i as int].subrange(1, ts[i as int].len() - 1);
            frags.push(sub_vec(t, 1, tlen - 1));
            done = true;
            proof {
                assert(frags.deep_view() =~~= frags0.push(fv));
                assert(frags0.push(fv) =~~= frags0 + seq![fv]);
                assert(quote_fragments(rest) =~= seq![fv]);
            }
        } else if !looking && tlen >= 1 && t[0] == QUOTE {
            let ghost fv = ts[i as int].drop_first();
            frags.push(sub_vec(t, 1, tlen));
            looking = true;
            proof {
                assert(frags.deep_view() =~~= frags0.push(fv));
                assert(frags0.push(fv) =~~= frags0 + seq![fv]);
                assert(quote_fragments(rest) =~= seq![fv] + quote_fragments_in(
                    rest.drop_first(),
                ));
            }
        } else if looking && tlen >= 1 && t[tlen - 1] == QUOTE {
            let ghost fv = ts[i as int].drop_last();
            frags.push(sub_vec(t, 0, tlen - 1));
            done = true;
            proof {
                assert(frags.deep_view() =~~= frags0.push(fv));
                assert(quote_fragments_in(rest) =~= seq![fv]);
                assert(frags0.push(fv) =~~= frags0 + seq![fv]);
            }
        } else if looking {
            let ghost fv = ts[i as int];
            frags.push(sub_vec(t, 0, tlen));
            proof {
                assert(fv =~= ts[i as int].subrange(0, ts[i as int].len() as int));
                assert(frags.deep_view() =~~= frags0.push(fv));
                assert(frags0.push(fv) =~~= frags0 + seq![fv]);
                assert(quote_fragments_in(rest) =~= seq![fv] + quote_fragments_in(
                    rest.drop_first(),
                ));
                assert(frags0 + (seq![fv] + quote_fragments_in(rest.drop_first()))
                    =~~= (frags0 + seq![fv]) + quote_fragments_in(rest.drop_first()));
            }
        } else {
            proof {
                assert(quote_fragments(rest) =~= quote_fragments(rest.drop_first()));
            }
        }
        i += 1;
    }
    proof {
        if !done {
            assert(ts.skip(ts.len() as int) =~= Seq::<Seq<u8>>::empty());
            if looking {
                assert(frags.deep_view() + quote_fragments_in(ts.skip(ts.len() as int))
                    =~~= frags.deep_view());
            } else {
                assert(frags.deep_view() =~~= Seq::<Seq<u8>>::empty());
                assert(quote_fragments(ts.skip(ts.len() as int)) =~= Seq::<Seq<u8>>::empty());
            }
        }
    }
    let mut label: Vec<u8> = Vec::new();
    let mut k: usize = 0;
    while k < frags.len()
        invariant
            k <= frags@.len(),
            quote_fragments(ts) == frags.deep_view(),
            ts == tokens.deep_view(),
            label@ == join_sp(frags.deep_view().take(k as int)),
        decreases frags.len() - k,
    {
        proof {
            assert(frags.deep_view().take(k + 1).drop_last() =~= frags.deep_view().take(
                k as int,
            ));
        }
        if k > 0 {
            label.push(SP);
        }
        label.extend_from_slice(frags[k].as_slice());
        proof {
            assert(frags.deep_view().take(k + 1).last() == frags.deep_view()[k as int]);
            assert(label@ =~= join_sp(frags.deep_view().take(k + 1)));
        }
        k += 1;
    }
    proof {
        assert(frags.deep_view().take(frags@.len() as int) =~= frags.deep_view());
    }
    label
}

/// Decodes the label carried by a success reply.
pub fn decode_label_reply(line: &Vec<u8>) -> (label: Vec<u8>)
    ensures
        label@ == spec_label_of(line@),
{
    let tokens = split_tokens(line);
    reassemble_label(&tokens)
}

/// Splitting distributes over concatenation: the tokens of `a + b` are
/// the tokens of each side, with `a`'s last and `b`'s first merged.
pub proof fn lemma_tokens_append(a: Seq<u8>, b: Seq<u8>)
    ensures
        spec_tokens(a + b) =~~= spec_tokens(a).drop_last() + seq![
            spec_tokens(a).last() + spec_tokens(b)[0],
        ] + spec_tokens(b).drop_first(),
    decreases b.len(),
{
    lemma_split_len(a, SP);
    lemma_split_len(b, SP);
    let ta = spec_tokens(a);
    if b.len() == 0 {
        assert(a + b =~= a);
        assert(spec_tokens(b) == seq![Seq::<u8>::empty()]);
        assert(ta.last() + spec_tokens(b)[0] =~= ta.last());
        assert(ta.drop_last() + seq![ta.last() + spec_tokens(b)[0]] + spec_tokens(
            b,
        ).drop_first() =~~= ta);
    } else {
        let b0 = b.drop_last();
        let c = b.last();
        lemma_tokens_append(a, b0);
        lemma_split_len(b0, SP);
        lemma_split_len(a + b0, SP);
        let tb0 = spec_tokens(b0);
        let tab0 = spec_tokens(a + b0);
        assert((a + b).drop_last() =~= a + b0);
        assert((a + b).last() == c);
        if c == SP {
            assert(spec_tokens(a + b) == tab0.push(Seq::<u8>::empty()));
            assert(spec_tokens(b) == tb0.push(Seq::<u8>::empty()));
            assert(spec_tokens(a + b) =~~= ta.drop_last() + seq![
                ta.last() + spec_tokens(b)[0],
            ] + spec_tokens(b).drop_first());
        } else {
            let n0 = tab0.len();
            let m0 = tb0.len();
            assert(spec_tokens(a + b) == tab0.update(n0 - 1, tab0.last().push(c)));
            assert(spec_tokens(b) == tb0.update(m0 - 1, tb0.last().push(c)));
            if m0 == 1 {
                assert(tab0.last() == ta.last() + tb0[0]);
                assert(spec_tokens(b)[0] == tb0[0].push(c));
                assert((ta.last() + tb0[0]).push(c) =~= ta.last() + tb0[0].push(c));
                assert(spec_tokens(a + b) =~~= ta.drop_last() + seq![
                    ta.last() + spec_tokens(b)[0],
                ] + spec_tokens(b).drop_first());
            } else {
                assert(tab0.last() == tb0.last());
                assert(spec_tokens(b)[0] == tb0[0]);
                assert(spec_tokens(a + b) =~~= ta.drop_last() + seq![
                    ta.last() + spec_tokens(b)[0],
                ] + spec_tokens(b).drop_first());
            }
        }
    }
}

/// Joining the tokens of a line with single spaces gives the line back:
/// splitting loses nothing.
pub proof fn lemma_join_tokens(s: Seq<u8>)
    ensures
        join_sp(spec_tokens(s)) == s,
    decreases s.len(),
{
    if s.len() == 0 {
        assert(join_sp(spec_tokens(s)) =~= s);
    } else {
        lemma_join_tokens(s.drop_last());
        lemma_split_len(s.drop_last(), SP);
        let ts = spec_tokens(s.drop_last());
        let c = s.last();
        if c == SP {
            assert(spec_tokens(s) == ts.push(Seq::<u8>::empty()));
            assert(ts.push(Seq::<u8>::empty()).drop_last() =~= ts);
            assert(join_sp(spec_tokens(s)) =~= s);
        } else {
            let upd = ts.update(ts.len() - 1, ts.last().push(c));
            assert(spec_tokens(s) == upd);
            if ts.len() == 1 {
                assert(join_sp(upd) == upd[0]);
                assert(upd[0] == ts[0].push(c));
                assert(join_sp(ts) == ts[0]);
                assert(ts[0].push(c) =~= s);
            } else {
                assert(upd.drop_last() =~= ts.drop_last());
                assert(upd.last() == ts.last().push(c));
                assert(join_sp(upd) == join_sp(ts.drop_last()) + seq![SP] + ts.last().push(
                    c,
                ));
                assert(join_sp(ts.drop_last()) + seq![SP] + ts.last().push(c) =~= (join_sp(
                    ts.drop_last(),
                ) + seq![SP] + ts.last()).push(c));
                assert(join_sp(spec_tokens(s)) =~= s);
            }
        }
    }
}

/// The tokens of a quote-free line are quote-free.
pub proof fn lemma_tokens_no_quote(s: Seq<u8>)
    requires
        !s.contains(QUOTE),
    ensures
        forall|i: int|
            0 <= i < spec_tokens(s).len() ==> !(#[trigger] spec_tokens(s)[i]).contains(
                QUOTE,
            ),
    decreases s.len(),
{
    lemma_split_len(s, SP);
    if s.len() == 0 {
        assert forall|i: int| 0 <= i < spec_tokens(s).len() implies !(
        #[trigger] spec_tokens(s)[i]).contains(QUOTE) by {
            assert(spec_tokens(s)[i] =~= Seq::<u8>::empty());
        }
    } else {
        assert(!s.drop_last().contains(QUOTE)) by {
            if s.drop_last().contains(QUOTE) {
                let j = choose|j: int|
                    0 <= j < s.drop_last().len() && s.drop_last()[j] == QUOTE;
                assert(s[j] == QUOTE);
            }
        }
        lemma_tokens_no_quote(s.drop_last());
        lemma_split_len(s.drop_last(), SP);
        let ts = spec_tokens(s.drop_last());
        let c = s.last();
        assert(c != QUOTE) by {
            if c == QUOTE {
                assert(s[s.len() - 1] == QUOTE);
            }
        }
        assert forall|i: int| 0 <= i < spec_tokens(s).len() implies !(
        #[trigger] spec_tokens(s)[i]).contains(QUOTE) by {
            if c == SP {
                if i < ts.len() {
                    assert(spec_tokens(s)[i] == ts[i]);
                } else {
                    assert(spec_tokens(s)[i] =~= Seq::<u8>::empty());
                }
            } else {
                if i < ts.len() - 1 {
                    assert(spec_tokens(s)[i] == ts[i]);
                } else {
                    assert(spec_tokens(s)[i] == ts.last().push(c));
                    assert(!ts.last().contains(QUOTE));
                    if ts.last().push(c).contains(QUOTE) {
                        let j = choose|j: int|
                            0 <= j < ts.last().push(c).len() && ts.last().push(c)[j]
                                == QUOTE;
                        if j < ts.last().len() {
                            assert(ts.last()[j] == QUOTE);
                        }
                    }
                }
            }
        }
    }
}

/// Tokens before the first quote carry no part of the field: the scan
/// passes quote-free tokens by.
pub proof fn lemma_fragments_skip(ta: Seq<Seq<u8>>, tb: Seq<Seq<u8>>)
    requires
        forall|i: int| 0 <= i < ta.len() ==> !(#[trigger] ta[i]).contains(QUOTE),
    ensures
        quote_fragments(ta + tb) == quote_fragments(tb),
    decreases ta.len(),
{
    if ta.len() == 0 {
        assert(ta + tb =~~= tb);
    } else {
        let t = ta[0];
        assert((ta + tb)[0] == t);
        assert(!t.contains(QUOTE));
        assert(!token_complete(t) && !token_opens(t)) by {
            if t.len() > 0 && t[0] == QUOTE {
                assert(t.contains(QUOTE));
            }
        }
        assert((ta + tb).drop_first() =~~= ta.drop_first() + tb);
        assert forall|i: int| 0 <= i < ta.drop_first().len() implies !(
        #[trigger] ta.drop_first()[i]).contains(QUOTE) by {
            assert(ta.drop_first()[i] == ta[i + 1]);
        }
        lemma_fragments_skip(ta.drop_first(), tb);
    }
}

/// Inside an open field, quote-free tokens are taken whole until the
/// closing token, which is taken without its final quote.
proof fn lemma_fragments_in_run(mid: Seq<Seq<u8>>, closing: Seq<u8>)
    requires
        forall|i: int| 0 <= i < mid.len() ==> !(#[trigger] mid[i]).contains(QUOTE),
        closing.len() >= 1,
        closing.last() == QUOTE,
    ensures
        quote_fragments_in(mid + seq![closing]) == mid.push(closing.drop_last()),
    decreases mid.len(),
{
    if mid.len() == 0 {
        assert(mid + seq![closing] =~~= seq![closing]);
        assert(quote_fragments_in(seq![closing]) == seq![closing.drop_last()]);
        assert(seq![closing.drop_last()] =~~= mid.push(closing.drop_last()));
    } else {
        let t = mid[0];
        assert((mid + seq![closing])[0] == t);
        assert(!token_closes(t)) by {
            if t.len() > 0 && t.last() == QUOTE {
                assert(t.contains(QUOTE));
            }
        }
        assert((mid + seq![closing]).drop_first() =~~= mid.drop_first() + seq![closing]);
        assert forall|i: int| 0 <= i < mid.drop_first().len() implies !(
        #[trigger] mid.drop_first()[i]).contains(QUOTE) by {
            assert(mid.drop_first()[i] == mid[i + 1]);
        }
        lemma_fragments_in_run(mid.drop_first(), closing);
        assert(seq![t] + (mid.drop_first().push(closing.drop_last())) =~~= mid.push(
            closing.drop_last(),
        ));
    }
}

/// The fragments of a quoted, quote-free label are exactly the label's
/// own tokens.
pub proof fn lemma_fragments_of_quoted(label: Seq<u8>)
    requires
        !label.contains(QUOTE),
    ensures
        quote_fragments(spec_tokens(seq![QUOTE] + label + seq![QUOTE])) =~~= spec_tokens(
            label,
        ),
{
    let tl = spec_tokens(label);
    lemma_split_len(label, SP);
    lemma_tokens_no_quote(label);
    assert(spec_tokens(seq![QUOTE]) == seq![seq![QUOTE]]) by {
        assert(seq![QUOTE].drop_last() =~= Seq::<u8>::empty());
        assert(spec_tokens(Seq::<u8>::empty()) == seq![Seq::<u8>::empty()]);
        assert(seq![QUOTE].last() == QUOTE);
        assert(Seq::<u8>::empty().push(QUOTE) =~= seq![QUOTE]);
        assert(seq![Seq::<u8>::empty()].update(0, Seq::<u8>::empty().push(QUOTE)) =~~= seq![
            seq![QUOTE],
        ]);
    }
    lemma_tokens_append(seq![QUOTE], label);
    let t1 = spec_tokens(seq![QUOTE] + label);
    assert(t1 =~~= seq![seq![QUOTE] + tl[0]] + tl.drop_first());
    lemma_tokens_append(seq![QUOTE] + label, seq![QUOTE]);
    let t2 = spec_tokens((seq![QUOTE] + label) + seq![QUOTE]);
    assert(seq![QUOTE] + label + seq![QUOTE] =~= (seq![QUOTE] + label) + seq![QUOTE]);
    assert(t2 =~~= t1.drop_last() + seq![t1.last() + seq![QUOTE]]);
    assert(!tl[0].contains(QUOTE));
    assert(!tl.last().contains(QUOTE));
    if tl.len() == 1 {
        assert(t1 =~~= seq![seq![QUOTE] + tl[0]]);
        let tok = (seq![QUOTE] + tl[0]) + seq![QUOTE];
        assert(t2 =~~= seq![tok]);
        assert(token_complete(tok)) by {
            assert(tok[0] == QUOTE);
            assert(tok.last() == QUOTE);
        }
        assert(tok.subrange(1, tok.len() - 1) =~= tl[0]);
        assert(quote_fragments(t2) =~~= seq![tl[0]]);
        assert(seq![tl[0]] =~~= tl);
    } else {
        let opener = seq![QUOTE] + tl[0];
        assert(t1.last() == tl.last());
        assert(t1.drop_last() =~~= seq![opener] + tl.drop_first().drop_last());
        let closing = tl.last() + seq![QUOTE];
        assert(t2 =~~= seq![opener] + tl.drop_first().drop_last() + seq![closing]);
        assert(t2[0] == opener);
        assert(token_opens(opener));
        assert(!token_complete(opener)) by {
            if opener.len() >= 2 {
                assert(opener.last() == tl[0].last());
                if opener.last() == QUOTE {
                    assert(tl[0].contains(QUOTE));
                }
            }
        }
        assert(opener.drop_first() =~= tl[0]);
        let mid = tl.drop_first().drop_last();
        assert forall|i: int| 0 <= i < mid.len() implies !(#[trigger] mid[i]).contains(
            QUOTE,
        ) by {
            assert(mid[i] == tl[i + 1]);
        }
        assert(closing.last() == QUOTE);
        assert(closing.drop_last() =~= tl.last());
        lemma_fragments_in_run(mid, closing);
        assert(t2.drop_first() =~~= mid + seq![closing]);
        assert(quote_fragments(t2) =~~= seq![tl[0]] + (mid.push(tl.last())));
        assert(seq![tl[0]] + mid.push(tl.last()) =~~= tl);
    }
}

/// A reply that echoes a set label decodes back to exactly that label:
/// whatever the console echoes before the field, the quoted field of
/// `<prefix> "<label>"` reassembles to the label itself — embedded
/// spaces included — as long as neither part carries a quote of its own.
pub proof fn lemma_echoed_label_roundtrip(prefix: Seq<u8>, label: Seq<u8>)
    requires
        !prefix.contains(QUOTE),
        !label.contains(QUOTE),
    ensures
        spec_label_of(prefix + seq![SP] + (seq![QUOTE] + label + seq![QUOTE])) == label,
{
    let quoted = seq![QUOTE] + label + seq![QUOTE];
    let line = prefix + seq![SP] + quoted;
    lemma_split_len(prefix, SP);
    lemma_split_len(quoted, SP);
    assert(spec_tokens(prefix + seq![SP]) == spec_tokens(prefix).push(Seq::<u8>::empty()))
        by {
        assert((prefix + seq![SP]).drop_last() =~= prefix);
        assert((prefix + seq![SP]).last() == SP);
    }
    lemma_tokens_append(prefix + seq![SP], quoted);
    assert(line =~= (prefix + seq![SP]) + quoted);
    let tp = spec_tokens(prefix);
    let tq = spec_tokens(quoted);
    assert(spec_tokens(line) =~~= tp + tq) by {
        assert(spec_tokens(prefix + seq![SP]).drop_last() =~~= tp);
        assert(spec_tokens(prefix + seq![SP]).last() =~= Seq::<u8>::empty());
        assert(Seq::<u8>::empty() + tq[0] =~= tq[0]);
        assert(tp + seq![tq[0]] + tq.drop_first() =~~= tp + tq);
    }
    lemma_tokens_no_quote(prefix);
    lemma_fragments_skip(tp, tq);
    lemma_fragments_of_quoted(label);
    lemma_join_tokens(label);
    assert(spec_label_of(line) == join_sp(quote_fragments(spec_tokens(line))));
    assert(quote_fragments(spec_tokens(line)) == quote_fragments(tp + tq));
    assert(quote_fragments(tq) =~~= spec_tokens(label));
}

/// The sequence with every quote byte removed, as applied to a reply's
/// color token before it is matched against the color names.
pub open spec fn strip_quotes(s: Seq<u8>) -> Seq<u8>
    decreases s.len(),
{
    if s.len() == 0 {
        s
    } else if s.last() == QUOTE {
        strip_quotes(s.drop_last())
    } else {
        strip_quotes(s.drop_last()).push(s.last())
    }
}

/// Removes every quote byte.
pub fn remove_quotes(v: &Vec<u8>) -> (r: Vec<u8>)
    ensures
        r@ == strip_quotes(v@),
{
    let mut r: Vec<u8> = Vec::new();
    let mut i: usize = 0;
    while i < v.len()
        invariant
            i <= v@.len(),
            r@ == strip_quotes(v@.take(i as int)),
        decreases v.len() - i,
    {
        proof {
            assert(v@.take(i + 1).drop_last() =~= v@.take(i as int));
        }
        if v[i] != QUOTE {
            r.push(v[i]);
        }
        i += 1;
    }
    proof {
        assert(v@.take(v@.len() as int) =~= v@);
    }
    r
}

/// Decodes the integer value carried by a success reply: its last token,
/// parsed as a signed 32-bit decimal.
pub fn decode_int_reply(line: &Vec<u8>) -> (r: Result<i32, Error>)
    ensures
        match r {
            Ok(v) => is_i32_token(spec_last_token(line@)) && v as int == token_val(
                spec_last_token(line@),
            ),
            Err(e) => !is_i32_token(spec_last_token(line@)) && e is RCPParseError,
        },
{
    let t = last_token(line);
    parse_i32(&t)
}

/// Whether no byte of the sequence is a line feed.
pub open spec fn lf_free(s: Seq<u8>) -> bool {
    forall|i: int| 0 <= i < s.len() ==> s[i] != LF
}

/// Whether a command is one well-framed wire line: terminated by exactly
/// one line feed, with none embedded.
pub open spec fn well_framed(cmd: Seq<u8>) -> bool {
    &&& cmd.len() >= 1
    &&& cmd.last() == LF
    &&& forall|i: int| 0 <= i < cmd.len() - 1 ==> cmd[i] != LF
}

/// Decimal digit writings contain no line feed.
pub proof fn lemma_dec_nat_lf_free(n: nat)
    ensures
        lf_free(spec_dec_nat(n)),
        spec_dec_nat(n).len() >= 1,
{
    lemma_dec_nat_val(n);
    assert forall|i: int| 0 <= i < spec_dec_nat(n).len() implies spec_dec_nat(n)[i]
        != LF by {
        assert(is_digit(spec_dec_nat(n)[i]));
    }
}

/// Decimal writings contain digits and at most a sign: no line feed.
pub proof fn lemma_dec_lf_free(v: int)
    ensures
        lf_free(spec_dec_i32(v)),
        spec_dec_i32(v).len() >= 1,
{
    let w = spec_dec_i32(v);
    if v < 0 {
        lemma_dec_nat_val((-v) as nat);
        let mag = spec_dec_nat((-v) as nat);
        assert forall|i: int| 0 <= i < w.len() implies w[i] != LF by {
            if i == 0 {
                assert(w[0] == MINUS);
            } else {
                assert(w[i] == mag[i - 1]);
                assert(is_digit(mag[i - 1]));
            }
        }
    } else {
        lemma_dec_nat_val(v as nat);
        assert forall|i: int| 0 <= i < w.len() implies w[i] != LF by {
            assert(is_digit(w[i]));
        }
    }
}

/// The decimal writing of a natural number is nonempty, consists of
/// digits alone, and reads back to the number itself.
pub proof fn lemma_dec_nat_val(n: nat)
    ensures
        spec_dec_nat(n).len() >= 1,
        all_digits(spec_dec_nat(n)),
        digits_val(spec_dec_nat(n)) == n,
    decreases n,
{
    if n < 10 {
        let s = spec_dec_nat(n);
        assert(s.drop_last() =~= Seq::<u8>::empty());
        assert(is_digit(s[0]));
        assert(digits_val(s) == digits_val(s.drop_last()) * 10 + (s.last() - ZERO));
        assert(s.last() == (ZERO + n) as u8);
    } else {
        lemma_dec_nat_val(n / 10);
        vstd::arithmetic::div_mod::lemma_fundamental_div_mod(n as int, 10);
        vstd::arithmetic::div_mod::lemma_mod_pos_bound(n as int, 10);
        let s = spec_dec_nat(n / 10);
        let d = (ZERO + n % 10) as u8;
        assert(spec_dec_nat(n) == s.push(d));
        assert(s.push(d).drop_last() =~= s);
        assert(digits_val(s.push(d)) == digits_val(s.push(d).drop_last()) * 10 + (s.push(
            d,
        ).last() - ZERO));
        assert(s.push(d).last() == d);
        assert(d - ZERO == n % 10);
        assert(digits_val(s) * 10 + n % 10 == n);
        assert(all_digits(s.push(d))) by {
            assert forall|i: int| 0 <= i < s.push(d).len() implies is_digit(
                #[trigger] s.push(d)[i],
            ) by {
                if i < s.len() {
                    assert(s.push(d)[i] == s[i]);
                } else {
                    assert(s.push(d)[i] == d);
                }
            }
        }
    }
}

/// A value written in decimal reads back to itself: the writing is a
/// well-formed integer token of the same value.
pub proof fn lemma_int_roundtrip(v: int)
    requires
        i32::MIN <= v <= i32::MAX,
    ensures
        is_i32_token(spec_dec_i32(v)),
        token_val(spec_dec_i32(v)) == v,
{
    if v < 0 {
        lemma_dec_nat_val((-v) as nat);
        let s = seq![MINUS] + spec_dec_nat((-v) as nat);
        assert(s[0] == MINUS);
        assert(int_mag(s) =~= spec_dec_nat((-v) as nat));
    } else {
        lemma_dec_nat_val(v as nat);
        let s = spec_dec_nat(v as nat);
        assert(is_digit(s[0]));
        assert(int_mag(s) == s);
    }
}

/// A tail free of spaces, appended after a space, is the line's last
/// token.
pub proof fn lemma_last_token_after_space(prefix: Seq<u8>, tail: Seq<u8>)
    requires
        forall|i: int| 0 <= i < tail.len() ==> tail[i] != SP,
    ensures
        spec_last_token(prefix + seq![SP] + tail) == tail,
    decreases tail.len(),
{
    let s = prefix + seq![SP] + tail;
    if tail.len() == 0 {
        assert(s.last() == SP);
        assert(spec_last_token(s) =~= tail);
    } else {
        let s2 = prefix + seq![SP] + tail.drop_last();
        assert(s.last() == tail.last());
        assert(tail[tail.len() - 1] != SP);
        assert(s.drop_last() =~= s2);
        assert forall|i: int| 0 <= i < tail.drop_last().len() implies tail.drop_last()[i]
            != SP by {
            assert(tail.drop_last()[i] == tail[i]);
        }
        lemma_last_token_after_space(prefix, tail.drop_last());
        lemma_split_len(s2, SP);
        assert(spec_last_token(s) =~= tail);
    }
}

/// A reply that echoes a set value decodes back to exactly that value:
/// whatever the console echoes before the final space, the last token of
/// the echo is the decimal writing of `v`, a well-formed token whose
/// value is `v` — so the integer decoding of the reply returns `v`.
pub proof fn lemma_echoed_value_roundtrip(prefix: Seq<u8>, v: i32)
    ensures
        is_i32_token(spec_last_token(prefix + seq![SP] + spec_dec_i32(v as int))),
        token_val(spec_last_token(prefix + seq![SP] + spec_dec_i32(v as int))) == v as int,
{
    let w = spec_dec_i32(v as int);
    lemma_int_roundtrip(v as int);
    if v < 0 {
        lemma_dec_nat_val((-(v as int)) as nat);
    } else {
        lemma_dec_nat_val((v as int) as nat);
    }
    assert forall|i: int| 0 <= i < w.len() implies w[i] != SP by {
        if v < 0 {
            let mag = spec_dec_nat((-(v as int)) as nat);
            if i == 0 {
                assert(w[0] == MINUS);
            } else {
                assert(w[i] == mag[i - 1]);
                assert(is_digit(mag[i - 1]));
            }
        } else {
            assert(is_digit(w[i]));
        }
    }
    lemma_last_token_after_space(prefix, w);
}

/// The value token of a reply: everything after the last space.
pub fn last_token(line: &Vec<u8>) -> (t: Vec<u8>)
    ensures
        t@ == spec_last_token(line@),
{
    let mut start: usize = 0;
    let mut i: usize = 0;
    while i < line.len()
        invariant
            start <= i <= line.len(),
            spec_tokens(line@.take(i as int)).last() == line@.subrange(
                start as int,
                i as int,
            ),
        decreases line.len() - i,
    {
        proof {
            lemma_split_len(line@.take(i as int), SP);
            assert(line@.take(i + 1).drop_last() =~= line@.take(i as int));
        }
        if line[i] == SP {
            start = i + 1;
            assert(spec_tokens(line@.take(i + 1)).last() =~= line@.subrange(
                start as int,
                i + 1,
            ));
        } else {
            assert(spec_tokens(line@.take(i + 1)).last() =~= line@.subrange(
                start as int,
                i + 1,
            ));
        }
        i += 1;
    }
    assert(line@.take(line@.len() as int) =~= line@);
    sub_vec(line, start, line.len())
}

} // verus!
