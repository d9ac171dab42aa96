//! Log records and their self-delimiting textual encoding.
//!
//! A record is written in the shape of a small JSON object:
//! `{"Insert":{"key":"..","value":".."}}` or `{"Remove":{"key":".."}}`.
//! Inside the quoted strings the bytes `"` and `\` are preceded by a `\`;
//! every other byte of the UTF-8 text, control bytes included, is written as
//! it is. So the form is JSON-like but not always valid JSON: a newline in a
//! key stays a raw newline.
use vstd::prelude::*;
use vstd::utf8::*;

verus! {

broadcast use vstd::seq::group_seq_axioms;

pub const QUOTE: u8 = 34;

pub const BACKSLASH: u8 = 92;

pub const CLOSE_BRACE: u8 = 125;

/// What a record says, on the characters of its key and value.
pub enum Record {
    Insert(Seq<char>, Seq<char>),
    Remove(Seq<char>),
}

/// A log record: a key now maps to a value, or a key has no mapping.
#[derive(Debug)]
pub enum LogCommand {
    Insert { key: String, value: String },
    Remove { key: String },
}

impl View for LogCommand {
    type V = Record;

    open spec fn view(&self) -> Record {
        match self {
            LogCommand::Insert { key, value } => Record::Insert(key@, value@),
            LogCommand::Remove { key } => Record::Remove(key@),
        }
    }
}

/// `{"Insert":{"key":"`
pub open spec fn insert_head() -> Seq<u8> {
    seq![123u8, 34, 73, 110, 115, 101, 114, 116, 34, 58, 123, 34, 107, 101, 121, 34, 58, 34]
}

/// `{"Remove":{"key":"`
pub open spec fn remove_head() -> Seq<u8> {
    seq![123u8, 34, 82, 101, 109, 111, 118, 101, 34, 58, 123, 34, 107, 101, 121, 34, 58, 34]
}

/// `,"value":"`
pub open spec fn value_sep() -> Seq<u8> {
    seq![44u8, 34, 118, 97, 108, 117, 101, 34, 58, 34]
}

/// `}}`
pub open spec fn record_tail() -> Seq<u8> {
    seq![CLOSE_BRACE, CLOSE_BRACE]
}

pub open spec fn escape_byte(b: u8) -> Seq<u8> {
    if b == QUOTE || b == BACKSLASH {
        seq![BACKSLASH, b]
    } else {
        seq![b]
    }
}

/// The bytes of a string as they stand between its quotes.
pub open spec fn escape(s: Seq<u8>) -> Seq<u8>
    decreases s.len(),
{
    if s.len() == 0 {
        seq![]
    } else {
        escape_byte(s[0]) + escape(s.drop_first())
    }
}

/// A quoted string: its escaped bytes and the closing quote.
pub open spec fn quoted(s: Seq<char>) -> Seq<u8> {
    escape(encode_utf8(s)) + seq![QUOTE]
}

/// The encoding of a record.
pub open spec fn record_bytes(r: Record) -> Seq<u8> {
    match r {
        Record::Insert(k, v) => insert_head() + quoted(k) + value_sep() + quoted(v) + record_tail(),
        Record::Remove(k) => remove_head() + quoted(k) + record_tail(),
    }
}

/// How far the bytes at a position agree with a fixed literal.
#[derive(Clone, Copy, PartialEq, Eq, Structural)]
pub enum LitMatch {
    /// The literal stands there in full.
    Full,
    /// The bytes end before the literal does, and agree with it up to there.
    Short,
    /// Some byte differs.
    Bad,
}

pub open spec fn match_lit(buf: Seq<u8>, i: int, lit: Seq<u8>) -> LitMatch {
    if buf.len() >= i + lit.len() {
        if buf.subrange(i, i + lit.len()) == lit {
            LitMatch::Full
        } else {
            LitMatch::Bad
        }
    } else if buf.subrange(i, buf.len() as int) == lit.subrange(0, buf.len() - i) {
        LitMatch::Short
    } else {
        LitMatch::Bad
    }
}

/// The outcome of reading the rest of a quoted string.
pub enum StrScan {
    /// The unescaped bytes and the position just past the closing quote.
    Done(Seq<u8>, int),
    /// The bytes end before the closing quote.
    Short,
    /// A `\` is followed by a byte that is not `"` or `\`.
    Bad,
}

pub open spec fn prefix_scan(c: Seq<u8>, r: StrScan) -> StrScan {
    match r {
        StrScan::Done(s, e) => StrScan::Done(c + s, e),
        other => other,
    }
}

/// Reads a quoted string whose opening quote stands just before `i`.
pub open spec fn scan_str(buf: Seq<u8>, i: int) -> StrScan
    decreases buf.len() - i,
{
    if i < 0 || i >= buf.len() {
        StrScan::Short
    } else if buf[i] == QUOTE {
        StrScan::Done(seq![], i + 1)
    } else if buf[i] == BACKSLASH {
        if i + 1 >= buf.len() {
            StrScan::Short
        } else if buf[i + 1] == QUOTE || buf[i + 1] == BACKSLASH {
            prefix_scan(seq![buf[i + 1]], scan_str(buf, i + 2))
        } else {
            StrScan::Bad
        }
    } else {
        prefix_scan(seq![buf[i]], scan_str(buf, i + 1))
    }
}

/// The outcome of decoding one record.
pub enum Parsed {
    /// The record and the position just past it.
    Done(Record, int),
    /// The bytes end inside a record that was well formed so far.
    Incomplete,
    /// The bytes do not begin a record.
    Malformed,
}

pub open spec fn parse_after_value(buf: Seq<u8>, kb: Seq<u8>, vb: Seq<u8>, e: int) -> Parsed {
    match match_lit(buf, e, record_tail()) {
        LitMatch::Short => Parsed::Incomplete,
        LitMatch::Bad => Parsed::Malformed,
        LitMatch::Full => if valid_utf8(kb) && valid_utf8(vb) {
            Parsed::Done(Record::Insert(decode_utf8(kb), decode_utf8(vb)), e + 2)
        } else {
            Parsed::Malformed
        },
    }
}

pub open spec fn parse_after_key(buf: Seq<u8>, kb: Seq<u8>, e: int) -> Parsed {
    match match_lit(buf, e, value_sep()) {
        LitMatch::Short => Parsed::Incomplete,
        LitMatch::Bad => Parsed::Malformed,
        LitMatch::Full => match scan_str(buf, e + 10) {
            StrScan::Short => Parsed::Incomplete,
            StrScan::Bad => Parsed::Malformed,
            StrScan::Done(vb, e2) => parse_after_value(buf, kb, vb, e2),
        },
    }
}

pub open spec fn parse_insert(buf: Seq<u8>, p: int) -> Parsed {
    match scan_str(buf, p + 18) {
        StrScan::Short => Parsed::Incomplete,
        StrScan::Bad => Parsed::Malformed,
        StrScan::Done(kb, e) => parse_after_key(buf, kb, e),
    }
}

pub open spec fn parse_remove(buf: Seq<u8>, p: int) -> Parsed {
    match scan_str(buf, p + 18) {
        StrScan::Short => Parsed::Incomplete,
        StrScan::Bad => Parsed::Malformed,
        StrScan::Done(kb, e) => match match_lit(buf, e, record_tail()) {
            LitMatch::Short => Parsed::Incomplete,
            LitMatch::Bad => Parsed::Malformed,
            LitMatch::Full => if valid_utf8(kb) {
                Parsed::Done(Record::Remove(decode_utf8(kb)), e + 2)
            } else {
                Parsed::Malformed
            },
        },
    }
}

/// The record that begins at position `p` of `buf`.
pub open spec fn parse_record(buf: Seq<u8>, p: int) -> Parsed {
    let hi = match_lit(buf, p, insert_head());
    let hr = match_lit(buf, p, remove_head());
    if hi is Full {
        parse_insert(buf, p)
    } else if hr is Full {
        parse_remove(buf, p)
    } else if hi is Short || hr is Short {
        Parsed::Incomplete
    } else {
        Parsed::Malformed
    }
}

proof fn lemma_sub(buf: Seq<u8>, p: int, rb: Seq<u8>, a: int, b: int)
    requires
        0 <= p,
        p + rb.len() <= buf.len(),
        buf.subrange(p, p + rb.len()) == rb,
        0 <= a <= b <= rb.len(),
    ensures
        buf.subrange(p + a, p + b) == rb.subrange(a, b),
{
    assert forall|j: int| 0 <= j < b - a implies buf.subrange(p + a, p + b)[j] == rb.subrange(
        a,
        b,
    )[j] by {
        assert(buf.subrange(p, p + rb.len())[a + j] == buf[p + a + j]);
    }
    assert(buf.subrange(p + a, p + b) =~= rb.subrange(a, b));
}

proof fn lemma_scan_quoted(buf: Seq<u8>, i: int, s: Seq<u8>)
    requires
        0 <= i,
        i + escape(s).len() + 1 <= buf.len(),
        buf.subrange(i, i + escape(s).len() + 1) == escape(s) + seq![QUOTE],
    ensures
        scan_str(buf, i) == StrScan::Done(s, i + escape(s).len() + 1),
    decreases s.len(),
{
    let q = escape(s) + seq![QUOTE];
    assert(buf[i] == q[0]) by {
        assert(buf.subrange(i, i + escape(s).len() + 1)[0] == buf[i]);
    }
    if s.len() == 0 {
        assert(escape(s) =~= Seq::<u8>::empty());
        assert(q[0] == QUOTE);
        assert(s =~= Seq::<u8>::empty());
    } else {
        let rest = s.drop_first();
        let w: int = escape_byte(s[0]).len() as int;
        assert(escape(s) == escape_byte(s[0]) + escape(rest));
        lemma_sub(buf, i, q, w, q.len() as int);
        assert(q.subrange(w, q.len() as int) =~= escape(rest) + seq![QUOTE]);
        lemma_scan_quoted(buf, i + w, rest);
        assert(seq![s[0]] + rest =~= s);
        if s[0] == QUOTE || s[0] == BACKSLASH {
            assert(buf[i + 1] == q[1]) by {
                assert(buf.subrange(i, i + escape(s).len() + 1)[1] == buf[i + 1]);
            }
            assert(q[0] == BACKSLASH);
            assert(q[1] == s[0]);
            assert(scan_str(buf, i) == prefix_scan(seq![s[0]], scan_str(buf, i + 2)));
        } else {
            assert(q[0] == s[0]);
            assert(scan_str(buf, i) == prefix_scan(seq![s[0]], scan_str(buf, i + 1)));
        }
    }
}

/// The encoding of a record, wherever it stands in a byte string, decodes to
/// that record and ends where the encoding ends.
pub proof fn lemma_decode_encoded(r: Record, buf: Seq<u8>, p: int)
    requires
        0 <= p,
        p + record_bytes(r).len() <= buf.len(),
        buf.subrange(p, p + record_bytes(r).len()) == record_bytes(r),
    ensures
        parse_record(buf, p) == Parsed::Done(r, p + record_bytes(r).len()),
{
    broadcast use encode_utf8_valid_utf8, encode_utf8_decode_utf8;

    let rb = record_bytes(r);
    match r {
        Record::Insert(k, v) => {
            let qk = quoted(k);
            let qv = quoted(v);
            let a: int = 18 + qk.len() as int;
            let b: int = a + 10;
            let c: int = b + qv.len();
            lemma_sub(buf, p, rb, 0, 18);
            assert(rb.subrange(0, 18) =~= insert_head());
            lemma_sub(buf, p, rb, 18, a);
            assert(rb.subrange(18, a) =~= qk);
            lemma_scan_quoted(buf, p + 18, encode_utf8(k));
            lemma_sub(buf, p, rb, a, b);
            assert(rb.subrange(a, b) =~= value_sep());
            lemma_sub(buf, p, rb, b, c);
            assert(rb.subrange(b, c) =~= qv);
            lemma_scan_quoted(buf, p + b, encode_utf8(v));
            lemma_sub(buf, p, rb, c, c + 2);
            assert(rb.subrange(c, c + 2) =~= record_tail());
        },
        Record::Remove(k) => {
            let qk = quoted(k);
            let a: int = 18 + qk.len() as int;
            lemma_sub(buf, p, rb, 0, 18);
            assert(rb.subrange(0, 18) =~= remove_head());
            assert(buf.subrange(p, p + 18)[2] != insert_head()[2]);
            lemma_sub(buf, p, rb, 18, a);
            assert(rb.subrange(18, a) =~= qk);
            lemma_scan_quoted(buf, p + 18, encode_utf8(k));
            lemma_sub(buf, p, rb, a, a + 2);
            assert(rb.subrange(a, a + 2) =~= record_tail());
        },
    }
}

proof fn lemma_scan_sound(buf: Seq<u8>, i: int)
    requires
        0 <= i,
        scan_str(buf, i) is Done,
    ensures
        i < scan_str(buf, i)->Done_1 <= buf.len(),
        buf.subrange(i, scan_str(buf, i)->Done_1) == escape(scan_str(buf, i)->Done_0) + seq![QUOTE],
    decreases buf.len() - i,
{
    let s = scan_str(buf, i)->Done_0;
    let e = scan_str(buf, i)->Done_1;
    if buf[i] == QUOTE {
        assert(s =~= Seq::<u8>::empty());
        assert(buf.subrange(i, e) =~= escape(s) + seq![QUOTE]);
    } else {
        let w: int = if buf[i] == BACKSLASH {
            2
        } else {
            1
        };
        let c = buf[i + w - 1];
        lemma_scan_sound(buf, i + w);
        let s2 = scan_str(buf, i + w)->Done_0;
        let e2 = scan_str(buf, i + w)->Done_1;
        assert(s == seq![c] + s2);
        assert(e == e2);
        assert((seq![c] + s2).drop_first() =~= s2);
        assert(escape(s) == escape_byte(c) + escape(s2));
        assert(buf.subrange(i, i + w) =~= escape_byte(c));
        assert(buf.subrange(i, e) =~= buf.subrange(i, i + w) + buf.subrange(i + w, e2));
        assert(buf.subrange(i, e) =~= escape(s) + seq![QUOTE]);
    }
}

/// Whatever decodes to a record is exactly that record's encoding: the
/// encoding has a single form, and a decoded record ends past where it began.
pub proof fn lemma_decoded_is_encoding(buf: Seq<u8>, p: int)
    requires
        0 <= p,
        parse_record(buf, p) is Done,
    ensures
        p < parse_record(buf, p)->Done_1 <= buf.len(),
        buf.subrange(p, parse_record(buf, p)->Done_1) == record_bytes(parse_record(buf, p)->Done_0),
{
    broadcast use decode_utf8_encode_utf8;

    let r = parse_record(buf, p)->Done_0;
    let e = parse_record(buf, p)->Done_1;
    lemma_scan_sound(buf, p + 18);
    let kb = scan_str(buf, p + 18)->Done_0;
    let e1 = scan_str(buf, p + 18)->Done_1;
    if match_lit(buf, p, insert_head()) is Full {
        lemma_scan_sound(buf, e1 + 10);
        let vb = scan_str(buf, e1 + 10)->Done_0;
        let e2 = scan_str(buf, e1 + 10)->Done_1;
        assert(buf.subrange(p, e) =~= buf.subrange(p, p + 18) + buf.subrange(p + 18, e1)
            + buf.subrange(e1, e1 + 10) + buf.subrange(e1 + 10, e2) + buf.subrange(e2, e));
        assert(buf.subrange(p, e) =~= record_bytes(r));
    } else {
        assert(buf.subrange(p, e) =~= buf.subrange(p, p + 18) + buf.subrange(p + 18, e1)
            + buf.subrange(e1, e));
        assert(buf.subrange(p, e) =~= record_bytes(r));
    }
}

proof fn lemma_shift_prefix(buf: Seq<u8>, i: int, q: Seq<u8>, s: Seq<u8>, rest: Seq<u8>, w: int)
    requires
        0 <= i,
        i + w <= buf.len(),
        s.len() > 0,
        rest == s.drop_first(),
        w == escape_byte(s[0]).len(),
        q == escape(s) + seq![QUOTE],
        escape(s) == escape_byte(s[0]) + escape(rest),
        buf.len() < i + q.len(),
        buf.subrange(i, buf.len() as int) == q.subrange(0, buf.len() - i),
    ensures
        buf.subrange(i + w, buf.len() as int) == (escape(rest) + seq![QUOTE]).subrange(
            0,
            buf.len() - i - w,
        ),
{
    let t = escape(rest) + seq![QUOTE];
    assert forall|j: int| 0 <= j < buf.len() - i - w implies #[trigger] buf.subrange(
        i + w,
        buf.len() as int,
    )[j] == t.subrange(0, buf.len() - i - w)[j] by {
        assert(buf.subrange(i, buf.len() as int)[w + j] == buf[i + w + j]);
        assert(q[w + j] == t[j]);
    }
    assert(buf.subrange(i + w, buf.len() as int) =~= t.subrange(0, buf.len() - i - w));
}

proof fn lemma_scan_short(buf: Seq<u8>, i: int, s: Seq<u8>)
    requires
        0 <= i <= buf.len(),
        buf.len() < i + escape(s).len() + 1,
        buf.subrange(i, buf.len() as int) == (escape(s) + seq![QUOTE]).subrange(
            0,
            buf.len() - i,
        ),
    ensures
        scan_str(buf, i) == StrScan::Short,
    decreases s.len(),
{
    let q = escape(s) + seq![QUOTE];
    if i < buf.len() {
        assert(buf[i] == q[0]) by {
            assert(buf.subrange(i, buf.len() as int)[0] == buf[i]);
        }
        if s.len() == 0 {
            assert(escape(s) =~= Seq::<u8>::empty());
        } else {
            let rest = s.drop_first();
            let w: int = escape_byte(s[0]).len() as int;
            assert(escape(s) == escape_byte(s[0]) + escape(rest));
            if s[0] == QUOTE || s[0] == BACKSLASH {
                assert(q[0] == BACKSLASH);
                if i + 1 < buf.len() {
                    assert(buf[i + 1] == q[1]) by {
                        assert(buf.subrange(i, buf.len() as int)[1] == buf[i + 1]);
                    }
                    lemma_shift_prefix(buf, i, q, s, rest, 2);
                    lemma_scan_short(buf, i + 2, rest);
                }
            } else {
                assert(q[0] == s[0]);
                lemma_shift_prefix(buf, i, q, s, rest, 1);
                lemma_scan_short(buf, i + 1, rest);
            }
        }
    }
}

/// Bytes that end inside the encoding of a record, having agreed with it up
/// to there, decode as an incomplete record.
#[verifier::rlimit(40)]
pub proof fn lemma_cut_record_incomplete(r: Record, buf: Seq<u8>, p: int)
    requires
        0 <= p < buf.len(),
        buf.len() - p < record_bytes(r).len(),
        buf.subrange(p, buf.len() as int) == record_bytes(r).subrange(0, buf.len() - p),
    ensures
        parse_record(buf, p) == Parsed::Incomplete,
{
    let rb = record_bytes(r);
    let l: int = buf.len() - p;
    let pre = rb.subrange(0, l);
    assert(insert_head().len() == 18);
    assert(remove_head().len() == 18);
    assert(value_sep().len() == 10);
    match r {
        Record::Insert(k, v) => {
            let qk = quoted(k);
            let qv = quoted(v);
            let a: int = 18 + qk.len() as int;
            let b: int = a + 10;
            let c: int = b + qv.len();
            if l < 18 {
                assert(buf.subrange(p, buf.len() as int) =~= insert_head().subrange(0, l));
            } else {
                lemma_sub(buf, p, pre, 0, 18);
                assert(pre.subrange(0, 18) =~= insert_head());
                if l < a {
                    lemma_sub(buf, p, pre, 18, l);
                    assert(pre.subrange(18, l) =~= (escape(encode_utf8(k)) + seq![
                        QUOTE,
                    ]).subrange(0, l - 18));
                    lemma_scan_short(buf, p + 18, encode_utf8(k));
                } else {
                    lemma_sub(buf, p, pre, 18, a);
                    assert(pre.subrange(18, a) =~= qk);
                    lemma_scan_quoted(buf, p + 18, encode_utf8(k));
                    if l < b {
                        lemma_sub(buf, p, pre, a, l);
                        assert(pre.subrange(a, l) =~= value_sep().subrange(0, l - a));
                    } else {
                        lemma_sub(buf, p, pre, a, b);
                        assert(pre.subrange(a, b) =~= value_sep());
                        if l < c {
                            lemma_sub(buf, p, pre, b, l);
                            assert(pre.subrange(b, l) =~= (escape(encode_utf8(v)) + seq![
                                QUOTE,
                            ]).subrange(0, l - b));
                            lemma_scan_short(buf, p + b, encode_utf8(v));
                        } else {
                            lemma_sub(buf, p, pre, b, c);
                            assert(pre.subrange(b, c) =~= qv);
                            lemma_scan_quoted(buf, p + b, encode_utf8(v));
                            lemma_sub(buf, p, pre, c, l);
                            assert(pre.subrange(c, l) =~= record_tail().subrange(0, l - c));
                        }
                    }
                }
            }
        },
        Record::Remove(k) => {
            let qk = quoted(k);
            let a: int = 18 + qk.len() as int;
            if l < 18 {
                assert(buf.subrange(p, buf.len() as int) =~= remove_head().subrange(0, l));
            } else {
                lemma_sub(buf, p, pre, 0, 18);
                assert(pre.subrange(0, 18) =~= remove_head());
                assert(buf.subrange(p, p + 18)[2] != insert_head()[2]);
                if l < a {
                    lemma_sub(buf, p, pre, 18, l);
                    assert(pre.subrange(18, l) =~= (escape(encode_utf8(k)) + seq![
                        QUOTE,
                    ]).subrange(0, l - 18));
                    lemma_scan_short(buf, p + 18, encode_utf8(k));
                } else {
                    lemma_sub(buf, p, pre, 18, a);
                    assert(pre.subrange(18, a) =~= qk);
                    lemma_scan_quoted(buf, p + 18, encode_utf8(k));
                    lemma_sub(buf, p, pre, a, l);
                    assert(pre.subrange(a, l) =~= record_tail().subrange(0, l - a));
                }
            }
        },
    }
}

/// The result of [`decode_at`].
pub enum Decoded {
    /// A record and the position just past it.
    Record(LogCommand, usize),
    /// The bytes end inside a record that was well formed so far.
    Incomplete,
    /// The bytes do not begin a record.
    Malformed,
}

impl View for Decoded {
    type V = Parsed;

    open spec fn view(&self) -> Parsed {
        match self {
            Decoded::Record(c, e) => Parsed::Done(c@, *e as int),
            Decoded::Incomplete => Parsed::Incomplete,
            Decoded::Malformed => Parsed::Malformed,
        }
    }
}

enum StrOutcome {
    Done(Vec<u8>, usize),
    Short,
    Bad,
}

impl View for StrOutcome {
    type V = StrScan;

    closed spec fn view(&self) -> StrScan {
        match self {
            StrOutcome::Done(s, e) => StrScan::Done(s@, *e as int),
            StrOutcome::Short => StrScan::Short,
            StrOutcome::Bad => StrScan::Bad,
        }
    }
}

proof fn lemma_escape_concat(a: Seq<u8>, b: Seq<u8>)
    ensures
        escape(a + b) == escape(a) + escape(b),
    decreases a.len(),
{
    if a.len() == 0 {
        assert(a + b =~= b);
        assert(escape(a) + escape(b) =~= escape(b));
    } else {
        assert((a + b).drop_first() =~= a.drop_first() + b);
        lemma_escape_concat(a.drop_first(), b);
        assert(escape(a + b) =~= escape(a) + escape(b));
    }
}

proof fn lemma_escape_push(a: Seq<u8>, x: u8)
    ensures
        escape(a.push(x)) == escape(a) + escape_byte(x),
{
    assert(seq![x].drop_first() =~= Seq::<u8>::empty());
    assert(escape(seq![x]) =~= escape_byte(x) + escape(Seq::<u8>::empty()));
    assert(escape(seq![x]) =~= escape_byte(x));
    assert(a.push(x) =~= a + seq![x]);
    lemma_escape_concat(a, seq![x]);
}

proof fn lemma_prefix_scan_push(c: Seq<u8>, b: u8, r: StrScan)
    ensures
        prefix_scan(c, prefix_scan(seq![b], r)) == prefix_scan(c.push(b), r),
{
    if let StrScan::Done(s, e) = r {
        assert(c + (seq![b] + s) =~= c.push(b) + s);
    }
}

fn insert_head_bytes() -> (r: Vec<u8>)
    ensures
        r@ == insert_head(),
{
    let r: Vec<u8> = vec![123u8, 34, 73, 110, 115, 101, 114, 116, 34, 58, 123, 34, 107, 101, 121, 34, 58, 34];
    assert(r@ =~= insert_head());
    r
}

fn remove_head_bytes() -> (r: Vec<u8>)
    ensures
        r@ == remove_head(),
{
    let r: Vec<u8> = vec![123u8, 34, 82, 101, 109, 111, 118, 101, 34, 58, 123, 34, 107, 101, 121, 34, 58, 34];
    assert(r@ =~= remove_head());
    r
}

fn value_sep_bytes() -> (r: Vec<u8>)
    ensures
        r@ == value_sep(),
{
    let r: Vec<u8> = vec![44u8, 34, 118, 97, 108, 117, 101, 34, 58, 34];
    assert(r@ =~= value_sep());
    r
}

fn record_tail_bytes() -> (r: Vec<u8>)
    ensures
        r@ == record_tail(),
{
    let r: Vec<u8> = vec![CLOSE_BRACE, CLOSE_BRACE];
    assert(r@ =~= record_tail());
    r
}

/// Appends the quoted form of a string: its escaped bytes, then the closing quote.
fn push_quoted(out: &mut Vec<u8>, s: &String)
    ensures
        final(out)@ == old(out)@ + quoted(s@),
{
    let ghost start = out@;
    let b = s.as_str().as_bytes();
    let mut i: usize = 0;
    while i < b.len()
        invariant
            i <= b@.len(),
            b@ == encode_utf8(s@),
            out@ == start + escape(b@.subrange(0, i as int)),
        decreases b.len() - i,
    {
        let x = b[i];
        proof {
            assert(b@.subrange(0, i + 1) =~= b@.subrange(0, i as int).push(x));
            lemma_escape_push(b@.subrange(0, i as int), x);
        }
        if x == QUOTE || x == BACKSLASH {
            out.push(BACKSLASH);
        }
        out.push(x);
        proof {
            assert(out@ =~= start + escape(b@.subrange(0, i + 1)));
        }
        i += 1;
    }
    out.push(QUOTE);
    proof {
        assert(b@.subrange(0, b@.len() as int) =~= b@);
        assert(out@ =~= start + quoted(s@));
    }
}

/// Encodes a record.
pub fn encode(cmd: &LogCommand) -> (r: Vec<u8>)
    ensures
        r@ == record_bytes(cmd@),
{
    let mut out: Vec<u8> = Vec::new();
    match cmd {
        LogCommand::Insert { key, value } => {
            let head = insert_head_bytes();
            out.extend_from_slice(head.as_slice());
            push_quoted(&mut out, key);
            let sep = value_sep_bytes();
            out.extend_from_slice(sep.as_slice());
            push_quoted(&mut out, value);
            let tail = record_tail_bytes();
            out.extend_from_slice(tail.as_slice());
        },
        LogCommand::Remove { key } => {
            let head = remove_head_bytes();
            out.extend_from_slice(head.as_slice());
            push_quoted(&mut out, key);
            let tail = record_tail_bytes();
            out.extend_from_slice(tail.as_slice());
        },
    }
    assert(out@ =~= record_bytes(cmd@));
    out
}

fn match_lit_at(buf: &[u8], i: usize, lit: &[u8]) -> (r: LitMatch)
    requires
        i <= buf@.len(),
    ensures
        r == match_lit(buf@, i as int, lit@),
{
    let n = buf.len();
    let room = n - i;
    let mut j: usize = 0;
    while j < lit.len() && j < room
        invariant
            j <= lit@.len(),
            j <= room,
            i + room == buf@.len(),
            n == buf@.len(),
            buf@.subrange(i as int, i + j) == lit@.subrange(0, j as int),
        decreases lit.len() - j,
    {
        if buf[i + j] != lit[j] {
            proof {
                if buf@.len() >= i + lit@.len() {
                    assert(buf@.subrange(i as int, i + lit@.len())[j as int] != lit@[j as int]);
                } else {
                    assert(buf@.subrange(i as int, buf@.len() as int)[j as int] != lit@.subrange(
                        0,
                        buf@.len() - i,
                    )[j as int]);
                }
            }
            return LitMatch::Bad;
        }
        proof {
            assert(buf@.subrange(i as int, i + j + 1) =~= buf@.subrange(i as int, i + j).push(
                buf@[i + j],
            ));
            assert(lit@.subrange(0, j + 1) =~= lit@.subrange(0, j as int).push(lit@[j as int]));
        }
        j += 1;
    }
    if j == lit.len() {
        proof {
            assert(lit@.subrange(0, j as int) =~= lit@);
        }
        LitMatch::Full
    } else {
        LitMatch::Short
    }
}

fn scan_str_at(buf: &[u8], start: usize) -> (r: StrOutcome)
    requires
        start <= buf@.len(),
    ensures
        r@ == scan_str(buf@, start as int),
        r matches StrOutcome::Done(_, e) ==> e <= buf@.len(),
{
    let mut out: Vec<u8> = Vec::new();
    let mut i = start;
    proof {
        assert(prefix_scan(out@, scan_str(buf@, i as int)) == scan_str(buf@, i as int)) by {
            if let StrScan::Done(s, e) = scan_str(buf@, i as int) {
                assert(out@ + s =~= s);
            }
        }
    }
    while i < buf.len()
        invariant
            start <= i <= buf@.len(),
            scan_str(buf@, start as int) == prefix_scan(out@, scan_str(buf@, i as int)),
        decreases buf.len() - i,
    {
        let b = buf[i];
        if b == QUOTE {
            proof {
                assert(out@ + Seq::<u8>::empty() =~= out@);
            }
            return StrOutcome::Done(out, i + 1);
        }
        if b == BACKSLASH {
            if i + 1 >= buf.len() {
                return StrOutcome::Short;
            }
            let c = buf[i + 1];
            if c == QUOTE || c == BACKSLASH {
                proof {
                    lemma_prefix_scan_push(out@, c, scan_str(buf@, i + 2));
                }
                out.push(c);
                i = i + 2;
            } else {
                return StrOutcome::Bad;
            }
        } else {
            proof {
                lemma_prefix_scan_push(out@, b, scan_str(buf@, i + 1));
            }
            out.push(b);
            i = i + 1;
        }
    }
    StrOutcome::Short
}

/// Relies on `std::str::from_utf8`: it accepts exactly the well-formed UTF-8
/// byte strings, and the text it gives back is their decoding.
#[verifier::external_body]
pub(crate) fn text_of_utf8(b: &[u8]) -> (r: Option<String>)
    ensures
        r is Some <==> valid_utf8(b@),
        r matches Some(s) ==> s@ == decode_utf8(b@),
{
    std::str::from_utf8(b).ok().map(|s| s.to_string())
}

/// Decodes the record that begins at position `p` of `buf`.
pub fn decode_at(buf: &[u8], p: usize) -> (r: Decoded)
    requires
        p <= buf@.len(),
    ensures
        r@ == parse_record(buf@, p as int),
{
    let n = buf.len();
    let ih = insert_head_bytes();
    let rh = remove_head_bytes();
    proof {
        assert(insert_head().len() == 18);
        assert(remove_head().len() == 18);
        assert(value_sep().len() == 10);
        assert(record_tail().len() == 2);
    }
    let hi = match_lit_at(buf, p, ih.as_slice());
    let hr = match_lit_at(buf, p, rh.as_slice());
    let is_insert = match hi {
        LitMatch::Full => true,
        _ => false,
    };
    let is_remove = match hr {
        LitMatch::Full => true,
        _ => false,
    };
    if !is_insert && !is_remove {
        return match (hi, hr) {
            (LitMatch::Short, _) | (_, LitMatch::Short) => Decoded::Incomplete,
            _ => Decoded::Malformed,
        };
    }
    let (kb, e) = match scan_str_at(buf, p + 18) {
        StrOutcome::Done(kb, e) => (kb, e),
        StrOutcome::Short => {
            return Decoded::Incomplete;
        },
        StrOutcome::Bad => {
            return Decoded::Malformed;
        },
    };
    let tail = record_tail_bytes();
    if is_remove && !is_insert {
        match match_lit_at(buf, e, tail.as_slice()) {
            LitMatch::Full => {},
            LitMatch::Short => {
                return Decoded::Incomplete;
            },
            LitMatch::Bad => {
                return Decoded::Malformed;
            },
        }
        return match text_of_utf8(kb.as_slice()) {
            Some(key) => Decoded::Record(LogCommand::Remove { key }, e + 2),
            None => Decoded::Malformed,
        };
    }
    let sep = value_sep_bytes();
    match match_lit_at(buf, e, sep.as_slice()) {
        LitMatch::Full => {},
        LitMatch::Short => {
            return Decoded::Incomplete;
        },
        LitMatch::Bad => {
            return Decoded::Malformed;
        },
    }
    let (vb, e2) = match scan_str_at(buf, e + 10) {
        StrOutcome::Done(vb, e2) => (vb, e2),
        StrOutcome::Short => {
            return Decoded::Incomplete;
        },
        StrOutcome::Bad => {
            return Decoded::Malformed;
        },
    };
    match match_lit_at(buf, e2, tail.as_slice()) {
        LitMatch::Full => {},
        LitMatch::Short => {
            return Decoded::Incomplete;
        },
        LitMatch::Bad => {
            return Decoded::Malformed;
        },
    }
    let key = text_of_utf8(kb.as_slice());
    let value = text_of_utf8(vb.as_slice());
    match (key, value) {
        (Some(key), Some(value)) => Decoded::Record(LogCommand::Insert { key, value }, e2 + 2),
        _ => Decoded::Malformed,
    }
}

} // verus!
