//! The record codec.
//!
//! Every log record and every wire object is a brace-delimited textual
//! object built from quoted fields, for example
//! `{"cmd":"Set","key":"k","value":"v"}`.  Inside a quoted field the two
//! characters `"` and `\` are escaped with a backslash; every other
//! character stands for itself.  The encoding is self-delimiting, so a
//! stream of concatenated records can be decoded one record at a time,
//! and the decoder reports where the next record begins.
//!
//! The decoder accepts exactly the canonical spelling the encoder
//! produces: [`lemma_decode_encode`] shows that decoding an encoded
//! record succeeds and yields it back, and [`lemma_decode_sound`] shows
//! that whatever the decoder accepts is the encoding of the record it
//! returns.

use vstd::prelude::*;

use crate::error::KvStoreError;

verus! {

/// The two kinds of log record.
#[derive(PartialEq, Eq, Structural, Clone, Copy, Debug)]
pub enum CommandType {
    /// Binds a key to a value; spelled `"Set"` on disk and on the wire.
    Put,
    /// Unbinds a key; spelled `"Rm"`.
    Rm,
}

/// One log record, as written to a segment.
#[derive(Debug)]
pub struct Command {
    /// Which kind of record this is.
    pub cmd: CommandType,
    /// The key the record speaks about.
    pub key: String,
    /// The bound value; ignored (and encoded empty) for removals.
    pub value: String,
}

/// What a record denotes, at the specification level.
pub enum Op {
    /// A binding of `key` to `value`.
    Put { key: Seq<char>, value: Seq<char> },
    /// A removal of `key`.
    Rm { key: Seq<char> },
}

impl Op {
    /// The key an operation speaks about.
    pub open spec fn key(self) -> Seq<char> {
        match self {
            Op::Put { key, .. } => key,
            Op::Rm { key } => key,
        }
    }
}

impl Command {
    /// The operation this record denotes.  The value carried by a
    /// removal record is not part of its meaning.
    pub open spec fn op(&self) -> Op {
        match self.cmd {
            CommandType::Put => Op::Put { key: self.key@, value: self.value@ },
            CommandType::Rm => Op::Rm { key: self.key@ },
        }
    }
}

// ------------------------------------------------------------------
// The canonical encoding.
// ------------------------------------------------------------------

/// A field's characters with `"` and `\` escaped.
pub open spec fn escape(s: Seq<char>) -> Seq<char>
    decreases s.len(),
{
    if s.len() == 0 {
        Seq::empty()
    } else {
        (if s[0] == '"' || s[0] == '\\' {
            seq!['\\', s[0]]
        } else {
            seq![s[0]]
        }) + escape(s.drop_first())
    }
}

/// A quoted field's content followed by its closing quote.
pub open spec fn field_enc(s: Seq<char>) -> Seq<char> {
    escape(s) + seq!['"']
}

/// The opening of a record, up to and including the quote that starts
/// the command token.
pub open spec fn lit_head() -> Seq<char> {
    "{\"cmd\":\""@
}

/// From the quote closing the command token to the quote opening the key.
pub open spec fn lit_key() -> Seq<char> {
    "\",\"key\":\""@
}

/// From just after the key's closing quote to the quote opening the value.
pub open spec fn lit_mid() -> Seq<char> {
    ",\"value\":\""@
}

/// The closing brace, after the value's closing quote.
pub open spec fn lit_end() -> Seq<char> {
    "}"@
}

/// The token spelling a record kind.
pub open spec fn cmd_token(t: CommandType) -> Seq<char> {
    match t {
        CommandType::Put => "Set"@,
        CommandType::Rm => "Rm"@,
    }
}

/// The canonical encoding of an operation.
pub open spec fn spec_encode(op: Op) -> Seq<char> {
    match op {
        Op::Put { key, value } => lit_head() + cmd_token(CommandType::Put) + lit_key()
            + field_enc(key) + lit_mid() + field_enc(value) + lit_end(),
        Op::Rm { key } => lit_head() + cmd_token(CommandType::Rm) + lit_key() + field_enc(key)
            + lit_mid() + field_enc(Seq::empty()) + lit_end(),
    }
}

// ------------------------------------------------------------------
// The decoder, at the specification level.
// ------------------------------------------------------------------

/// Position just past `pat` when `data` carries `pat` at `off`.
pub open spec fn spec_lit(data: Seq<char>, off: int, pat: Seq<char>) -> Option<int> {
    if 0 <= off && off + pat.len() <= data.len() && data.subrange(off, off + pat.len()) == pat {
        Some(off + pat.len())
    } else {
        None
    }
}

/// Reads a quoted field's content up to and past its closing quote.
pub open spec fn spec_field(data: Seq<char>, off: int) -> Option<(Seq<char>, int)>
    decreases data.len() - off,
{
    if off < 0 || off >= data.len() {
        None
    } else if data[off] == '"' {
        Some((Seq::empty(), off + 1))
    } else if data[off] == '\\' {
        if off + 1 < data.len() && (data[off + 1] == '"' || data[off + 1] == '\\') {
            match spec_field(data, off + 2) {
                Some((s, end)) => Some((seq![data[off + 1]] + s, end)),
                None => None,
            }
        } else {
            None
        }
    } else {
        match spec_field(data, off + 1) {
            Some((s, end)) => Some((seq![data[off]] + s, end)),
            None => None,
        }
    }
}

/// Reads the command token and the quote-and-comma that follows it.
pub open spec fn spec_cmd_token(data: Seq<char>, off: int) -> Option<(CommandType, int)> {
    match spec_lit(data, off, cmd_token(CommandType::Put)) {
        Some(end) => Some((CommandType::Put, end)),
        None => match spec_lit(data, off, cmd_token(CommandType::Rm)) {
            Some(end) => Some((CommandType::Rm, end)),
            None => None,
        },
    }
}

/// Decodes one record starting at `off`; yields its operation and the
/// position just past the record.  `None` when `data` does not carry a
/// canonical record at `off`.
pub open spec fn spec_decode(data: Seq<char>, off: int) -> Option<(Op, int)> {
    match spec_lit(data, off, lit_head()) {
        None => None,
        Some(o1) => match spec_cmd_token(data, o1) {
            None => None,
            Some((ct, o2)) => match spec_lit(data, o2, lit_key()) {
                None => None,
                Some(o3) => match spec_field(data, o3) {
                    None => None,
                    Some((key, o4)) => match spec_lit(data, o4, lit_mid()) {
                        None => None,
                        Some(o5) => match spec_field(data, o5) {
                            None => None,
                            Some((value, o6)) => match spec_lit(data, o6, lit_end()) {
                                None => None,
                                Some(o7) => match ct {
                                    CommandType::Put => Some((Op::Put { key, value }, o7)),
                                    CommandType::Rm => if value =~= Seq::<char>::empty() {
                                        Some((Op::Rm { key }, o7))
                                    } else {
                                        None
                                    },
                                },
                            },
                        },
                    },
                },
            },
        },
    }
}

// ------------------------------------------------------------------
// Sequence plumbing.
// ------------------------------------------------------------------

/// A subrange splits at any interior point.
pub proof fn lemma_subrange_glue(data: Seq<char>, a: int, b: int, c: int)
    requires
        0 <= a <= b <= c <= data.len(),
    ensures
        data.subrange(a, c) == data.subrange(a, b) + data.subrange(b, c),
{
    assert(data.subrange(a, c) =~= data.subrange(a, b) + data.subrange(b, c));
}

/// A window into a known subrange is the matching window of its content.
pub proof fn lemma_subrange_cut(data: Seq<char>, off: int, big: Seq<char>, a: int, b: int)
    requires
        0 <= off,
        off + big.len() <= data.len(),
        data.subrange(off, off + big.len()) == big,
        0 <= a <= b <= big.len(),
    ensures
        data.subrange(off + a, off + b) == big.subrange(a, b),
{
    assert forall|i: int| 0 <= i < b - a implies data.subrange(off + a, off + b)[i] == big.subrange(
        a,
        b,
    )[i] by {
        assert(data.subrange(off, off + big.len())[a + i] == big[a + i]);
    }
    assert(data.subrange(off + a, off + b) =~= big.subrange(a, b));
}

/// Escaping distributes over concatenation.
pub proof fn lemma_escape_append(a: Seq<char>, b: Seq<char>)
    ensures
        escape(a + b) == escape(a) + escape(b),
    decreases a.len(),
{
    if a.len() == 0 {
        assert(a + b =~= b);
        assert(escape(a) =~= Seq::<char>::empty());
        assert(escape(a) + escape(b) =~= escape(b));
    } else {
        assert((a + b).drop_first() =~= a.drop_first() + b);
        lemma_escape_append(a.drop_first(), b);
        assert(escape(a + b) =~= escape(a) + escape(b));
    }
}

/// Escaping one character.
pub proof fn lemma_escape_one(c: char)
    ensures
        escape(seq![c]) == if c == '"' || c == '\\' {
            seq!['\\', c]
        } else {
            seq![c]
        },
{
    let s = seq![c];
    let piece: Seq<char> = if c == '"' || c == '\\' {
        seq!['\\', c]
    } else {
        seq![c]
    };
    assert(s.drop_first() =~= Seq::<char>::empty());
    assert(escape(Seq::<char>::empty()) == Seq::<char>::empty());
    assert(escape(s) == piece + escape(s.drop_first()));
    assert(piece + Seq::<char>::empty() =~= piece);
}

// ------------------------------------------------------------------
// The field parser agrees with the field encoder.
// ------------------------------------------------------------------

/// Parsing a window that carries an encoded field yields that field and
/// stops just past its closing quote.
pub proof fn lemma_field_complete(s: Seq<char>, data: Seq<char>, off: int)
    requires
        0 <= off,
        off + field_enc(s).len() <= data.len(),
        data.subrange(off, off + field_enc(s).len()) == field_enc(s),
    ensures
        spec_field(data, off) == Some((s, off + field_enc(s).len())),
    decreases s.len(),
{
    let n = field_enc(s).len() as int;
    if s.len() == 0 {
        assert(field_enc(s) =~= seq!['"']);
        assert(data[off] == data.subrange(off, off + n)[0]);
    } else {
        let c = s[0];
        let rest = s.drop_first();
        assert(s =~= seq![c] + rest);
        lemma_escape_append(seq![c], rest);
        lemma_escape_one(c);
        if c == '"' || c == '\\' {
            assert(field_enc(s) =~= seq!['\\', c] + field_enc(rest));
            assert(data[off] == data.subrange(off, off + n)[0]);
            assert(data[off + 1] == data.subrange(off, off + n)[1]);
            assert(data[off] == '\\');
            assert(data[off + 1] == c);
            lemma_subrange_cut(data, off, field_enc(s), 2, n);
            assert(field_enc(s).subrange(2, n) =~= field_enc(rest));
            lemma_field_complete(rest, data, off + 2);
            assert(seq![data[off + 1]] + rest =~= s);
        } else {
            assert(field_enc(s) =~= seq![c] + field_enc(rest));
            assert(data[off] == data.subrange(off, off + n)[0]);
            assert(data[off] == c);
            lemma_subrange_cut(data, off, field_enc(s), 1, n);
            assert(field_enc(s).subrange(1, n) =~= field_enc(rest));
            lemma_field_complete(rest, data, off + 1);
            assert(seq![data[off]] + rest =~= s);
        }
    }
}

/// Whatever the field parser accepts is the encoding of what it returns.
pub proof fn lemma_field_sound(data: Seq<char>, off: int)
    requires
        spec_field(data, off) is Some,
    ensures
        ({
            let (s, end) = spec_field(data, off)->Some_0;
            &&& 0 <= off < end <= data.len()
            &&& end - off == field_enc(s).len()
            &&& data.subrange(off, end) == field_enc(s)
        }),
    decreases data.len() - off,
{
    let (s, end) = spec_field(data, off)->Some_0;
    if data[off] == '"' {
        assert(field_enc(s) =~= seq!['"']);
        assert(data.subrange(off, end) =~= field_enc(s));
    } else if data[off] == '\\' {
        let (s2, _end2) = spec_field(data, off + 2)->Some_0;
        lemma_field_sound(data, off + 2);
        lemma_escape_append(seq![data[off + 1]], s2);
        lemma_escape_one(data[off + 1]);
        assert(s =~= seq![data[off + 1]] + s2);
        assert(field_enc(s) =~= seq!['\\', data[off + 1]] + field_enc(s2));
        assert(data.subrange(off, end) =~= field_enc(s));
    } else {
        let (s2, _end2) = spec_field(data, off + 1)->Some_0;
        lemma_field_sound(data, off + 1);
        lemma_escape_append(seq![data[off]], s2);
        lemma_escape_one(data[off]);
        assert(s =~= seq![data[off]] + s2);
        assert(field_enc(s) =~= seq![data[off]] + field_enc(s2));
        assert(data.subrange(off, end) =~= field_enc(s));
    }
}

// ------------------------------------------------------------------
// The record decoder agrees with the record encoder.
// ------------------------------------------------------------------

/// The kind of record an operation encodes as.
pub open spec fn op_type(op: Op) -> CommandType {
    match op {
        Op::Put { .. } => CommandType::Put,
        Op::Rm { .. } => CommandType::Rm,
    }
}

/// The value field an operation encodes with (empty for removals).
pub open spec fn op_value(op: Op) -> Seq<char> {
    match op {
        Op::Put { value, .. } => value,
        Op::Rm { .. } => Seq::empty(),
    }
}

/// Decoding a window that carries an encoded record yields that record
/// and stops just past it.
pub proof fn lemma_decode_encode(op: Op, data: Seq<char>, off: int)
    requires
        0 <= off,
        off + spec_encode(op).len() <= data.len(),
        data.subrange(off, off + spec_encode(op).len()) == spec_encode(op),
    ensures
        spec_decode(data, off) == Some((op, off + spec_encode(op).len())),
{
    let e = spec_encode(op);
    let n = e.len() as int;
    let ct = op_type(op);
    let key = op.key();
    let value = op_value(op);
    let p1 = lit_head();
    let p2 = cmd_token(ct);
    let p3 = lit_key();
    let p4 = field_enc(key);
    let p5 = lit_mid();
    let p6 = field_enc(value);
    let p7 = lit_end();
    assert(e == p1 + p2 + p3 + p4 + p5 + p6 + p7);
    let a1 = p1.len() as int;
    let a2 = a1 + p2.len() as int;
    let a3 = a2 + p3.len() as int;
    let a4 = a3 + p4.len() as int;
    let a5 = a4 + p5.len() as int;
    let a6 = a5 + p6.len() as int;
    let a7 = a6 + p7.len() as int;
    assert(n == a7);
    assert(e.subrange(0, a1) =~= p1);
    assert(e.subrange(a1, a2) =~= p2);
    assert(e.subrange(a2, a3) =~= p3);
    assert(e.subrange(a3, a4) =~= p4);
    assert(e.subrange(a4, a5) =~= p5);
    assert(e.subrange(a5, a6) =~= p6);
    assert(e.subrange(a6, a7) =~= p7);
    lemma_subrange_cut(data, off, e, 0, a1);
    lemma_subrange_cut(data, off, e, a1, a2);
    lemma_subrange_cut(data, off, e, a2, a3);
    lemma_subrange_cut(data, off, e, a3, a4);
    lemma_subrange_cut(data, off, e, a4, a5);
    lemma_subrange_cut(data, off, e, a5, a6);
    lemma_subrange_cut(data, off, e, a6, a7);
    assert(spec_lit(data, off, p1) == Some(off + a1));
    if ct is Rm {
        // `"Set"` cannot match where the token is `Rm`.
        reveal_strlit("Set");
        reveal_strlit("Rm");
        assert(data[off + a1] == p2[0]);
        assert(p2[0] == 'R');
        if spec_lit(data, off + a1, "Set"@) is Some {
            assert(data.subrange(off + a1, off + a1 + 3) == "Set"@);
            assert(data[off + a1] == 'S');
        }
        assert(spec_lit(data, off + a1, "Set"@) is None);
    }
    assert(spec_cmd_token(data, off + a1) == Some((ct, off + a2)));
    assert(spec_lit(data, off + a2, p3) == Some(off + a3));
    lemma_field_complete(key, data, off + a3);
    assert(spec_field(data, off + a3) == Some((key, off + a4)));
    assert(spec_lit(data, off + a4, p5) == Some(off + a5));
    lemma_field_complete(value, data, off + a5);
    assert(spec_field(data, off + a5) == Some((value, off + a6)));
    assert(spec_lit(data, off + a6, p7) == Some(off + a7));
    assert(spec_decode(data, off) == Some((op, off + n)));
}

/// Whatever the record decoder accepts is the canonical encoding of the
/// record it returns, and it consumes at least one character.
pub proof fn lemma_decode_sound(data: Seq<char>, off: int)
    requires
        spec_decode(data, off) is Some,
    ensures
        ({
            let (op, end) = spec_decode(data, off)->Some_0;
            &&& 0 <= off < end <= data.len()
            &&& end - off == spec_encode(op).len()
            &&& data.subrange(off, end) == spec_encode(op)
        }),
{
    let (op, end) = spec_decode(data, off)->Some_0;
    let o1 = spec_lit(data, off, lit_head())->Some_0;
    let (ct, o2) = spec_cmd_token(data, o1)->Some_0;
    let o3 = spec_lit(data, o2, lit_key())->Some_0;
    let (key, o4) = spec_field(data, o3)->Some_0;
    let o5 = spec_lit(data, o4, lit_mid())->Some_0;
    let (value, o6) = spec_field(data, o5)->Some_0;
    let o7 = spec_lit(data, o6, lit_end())->Some_0;
    lemma_field_sound(data, o3);
    lemma_field_sound(data, o5);
    assert(data.subrange(off, o1) == lit_head());
    assert(data.subrange(o1, o2) == cmd_token(ct));
    assert(data.subrange(o2, o3) == lit_key());
    assert(data.subrange(o3, o4) == field_enc(key));
    assert(data.subrange(o4, o5) == lit_mid());
    assert(data.subrange(o5, o6) == field_enc(value));
    assert(data.subrange(o6, o7) == lit_end());
    lemma_subrange_glue(data, off, o1, o2);
    lemma_subrange_glue(data, off, o2, o3);
    lemma_subrange_glue(data, off, o3, o4);
    lemma_subrange_glue(data, off, o4, o5);
    lemma_subrange_glue(data, off, o5, o6);
    lemma_subrange_glue(data, off, o6, o7);
    assert(data.subrange(off, o7) == lit_head() + cmd_token(ct) + lit_key() + field_enc(key)
        + lit_mid() + field_enc(value) + lit_end());
    assert(op_type(op) == ct);
    assert(op.key() == key);
    assert(op_value(op) == value);
    assert(spec_encode(op) == lit_head() + cmd_token(ct) + lit_key() + field_enc(key) + lit_mid()
        + field_enc(value) + lit_end());
}

// ------------------------------------------------------------------
// Executable encoding.
// ------------------------------------------------------------------

/// Builds a `String` from a vector of characters.
///
/// Relies on std's `FromIterator<char> for String` (through
/// `Iterator::collect`): collecting characters yields the string of
/// exactly those characters, in order.
#[verifier::external_body]
pub(crate) fn chars_to_string(v: &Vec<char>) -> (s: String)
    ensures
        s@ == v@,
{
    v.iter().collect()
}

/// Appends a borrowed string's characters to a character buffer.
pub fn push_str(out: &mut Vec<char>, pat: &str)
    ensures
        final(out)@ == old(out)@ + pat@,
{
    let ghost orig = out@;
    let n = pat.unicode_len();
    let mut i: usize = 0;
    while i < n
        invariant
            i <= n,
            n == pat@.len(),
            out@ == orig + pat@.take(i as int),
        decreases n - i,
    {
        let c = pat.get_char(i);
        out.push(c);
        proof {
            assert(pat@.take(i + 1) =~= pat@.take(i as int).push(pat@[i as int]));
            assert(orig + pat@.take(i + 1) =~= (orig + pat@.take(i as int)).push(
                pat@[i as int],
            ));
        }
        i = i + 1;
    }
    proof {
        assert(pat@.take(n as int) =~= pat@);
    }
}

/// Appends a quoted field — the escaped content and the closing quote.
pub fn push_field(out: &mut Vec<char>, s: &str)
    ensures
        final(out)@ == old(out)@ + field_enc(s@),
{
    let ghost orig = out@;
    let n = s.unicode_len();
    let mut i: usize = 0;
    while i < n
        invariant
            i <= n,
            n == s@.len(),
            out@ == orig + escape(s@.take(i as int)),
        decreases n - i,
    {
        let c = s.get_char(i);
        proof {
            assert(s@.take(i + 1) =~= s@.take(i as int) + seq![s@[i as int]]);
            lemma_escape_append(s@.take(i as int), seq![s@[i as int]]);
            lemma_escape_one(s@[i as int]);
        }
        if c == '"' || c == '\\' {
            out.push('\\');
            out.push(c);
            proof {
                assert(orig + escape(s@.take(i + 1)) =~= (orig + escape(s@.take(i as int))).push(
                    '\\',
                ).push(s@[i as int]));
            }
        } else {
            out.push(c);
            proof {
                assert(orig + escape(s@.take(i + 1)) =~= (orig + escape(s@.take(i as int))).push(
                    s@[i as int],
                ));
            }
        }
        i = i + 1;
    }
    out.push('"');
    proof {
        assert(s@.take(n as int) =~= s@);
        assert(orig + field_enc(s@) =~= (orig + escape(s@)).push('"'));
    }
}

/// Encodes one record canonically.
pub fn encode_command(c: &Command) -> (out: Vec<char>)
    ensures
        out@ == spec_encode(c.op()),
{
    let mut out: Vec<char> = Vec::new();
    push_str(&mut out, "{\"cmd\":\"");
    match c.cmd {
        CommandType::Put => push_str(&mut out, "Set"),
        CommandType::Rm => push_str(&mut out, "Rm"),
    }
    push_str(&mut out, "\",\"key\":\"");
    push_field(&mut out, c.key.as_str());
    push_str(&mut out, ",\"value\":\"");
    match c.cmd {
        CommandType::Put => push_field(&mut out, c.value.as_str()),
        CommandType::Rm => push_field(&mut out, ""),
    }
    push_str(&mut out, "}");
    proof {
        reveal_strlit("");
        assert(""@ =~= Seq::<char>::empty());
        assert(out@ =~= spec_encode(c.op()));
    }
    out
}

// ------------------------------------------------------------------
// Executable decoding.
// ------------------------------------------------------------------

/// Matches a literal at `off`; yields the position just past it.
pub(crate) fn expect_lit(data: &Vec<char>, off: usize, pat: &str) -> (r: Option<usize>)
    ensures
        match r {
            Some(end) => spec_lit(data@, off as int, pat@) == Some(end as int) && off <= end
                <= data.len(),
            None => spec_lit(data@, off as int, pat@) is None,
        },
{
    let n = pat.unicode_len();
    if off > data.len() || n > data.len() - off {
        return None;
    }
    let mut i: usize = 0;
    while i < n
        invariant
            i <= n,
            n == pat@.len(),
            off + n <= data.len(),
            data@.subrange(off as int, off + i) == pat@.take(i as int),
        decreases n - i,
    {
        let c = pat.get_char(i);
        if data[off + i] != c {
            proof {
                if spec_lit(data@, off as int, pat@) is Some {
                    assert(data@.subrange(off as int, off + n as int)[i as int] == pat@[i as int]);
                }
            }
            return None;
        }
        proof {
            assert(data@.subrange(off as int, off + i + 1) =~= data@.subrange(
                off as int,
                off + i,
            ).push(data@[off + i]));
            assert(pat@.take(i + 1) =~= pat@.take(i as int).push(pat@[i as int]));
        }
        i = i + 1;
    }
    proof {
        assert(pat@.take(n as int) =~= pat@);
    }
    Some(off + n)
}

/// Reads a quoted field's content up to and past its closing quote.
pub(crate) fn parse_field(data: &Vec<char>, off: usize) -> (r: Option<(Vec<char>, usize)>)
    ensures
        match r {
            Some((s, end)) => spec_field(data@, off as int) == Some((s@, end as int)) && off < end
                <= data.len(),
            None => spec_field(data@, off as int) is None,
        },
{
    if off > data.len() {
        return None;
    }
    let mut acc: Vec<char> = Vec::new();
    let mut i: usize = off;
    proof {
        if spec_field(data@, off as int) is Some {
            let (s2, _e) = spec_field(data@, off as int)->Some_0;
            assert(acc@ + s2 =~= s2);
        }
    }
    loop
        invariant
            off <= i <= data.len(),
            match spec_field(data@, i as int) {
                Some((s2, e)) => spec_field(data@, off as int) == Some((acc@ + s2, e)),
                None => spec_field(data@, off as int) is None,
            },
        decreases data.len() - i,
    {
        if i >= data.len() {
            return None;
        }
        let c = data[i];
        if c == '"' {
            proof {
                assert(spec_field(data@, i as int) == Some((Seq::<char>::empty(), i + 1)));
                assert(acc@ + Seq::<char>::empty() =~= acc@);
            }
            return Some((acc, i + 1));
        } else if c == '\\' {
            if i + 1 >= data.len() {
                return None;
            }
            let c2 = data[i + 1];
            if c2 == '"' || c2 == '\\' {
                proof {
                    if spec_field(data@, i + 2) is Some {
                        let (s2, e) = spec_field(data@, i + 2)->Some_0;
                        assert(spec_field(data@, i as int) == Some((seq![data@[i + 1]] + s2, e)));
                        assert(acc@ + (seq![data@[i + 1]] + s2) =~= acc@.push(data@[i + 1]) + s2);
                    }
                }
                acc.push(c2);
                i = i + 2;
            } else {
                return None;
            }
        } else {
            proof {
                if spec_field(data@, i + 1) is Some {
                    let (s2, e) = spec_field(data@, i + 1)->Some_0;
                    assert(spec_field(data@, i as int) == Some((seq![data@[i as int]] + s2, e)));
                    assert(acc@ + (seq![data@[i as int]] + s2) =~= acc@.push(data@[i as int]) + s2);
                }
            }
            acc.push(c);
            i = i + 1;
        }
    }
}

/// Decodes one record starting at `off`.  Succeeds exactly on a
/// canonical record; reports where the next record begins.
pub fn decode_command(data: &Vec<char>, off: usize) -> (r: Result<
    (Command, usize),
    KvStoreError,
>)
    ensures
        match r {
            Ok((c, end)) => spec_decode(data@, off as int) == Some((c.op(), end as int)) && off
                < end <= data.len(),
            Err(e) => spec_decode(data@, off as int) is None && e is SerdeError,
        },
{
    let bad = KvStoreError::SerdeError { error: "invalid record".to_owned() };
    let o1 = match expect_lit(data, off, "{\"cmd\":\"") {
        Some(x) => x,
        None => {
            return Err(bad);
        },
    };
    let (ct, o2) = match expect_lit(data, o1, "Set") {
        Some(x) => (CommandType::Put, x),
        None => match expect_lit(data, o1, "Rm") {
            Some(x) => (CommandType::Rm, x),
            None => {
                return Err(bad);
            },
        },
    };
    let o3 = match expect_lit(data, o2, "\",\"key\":\"") {
        Some(x) => x,
        None => {
            return Err(bad);
        },
    };
    let (key_chars, o4) = match parse_field(data, o3) {
        Some(x) => x,
        None => {
            return Err(bad);
        },
    };
    let o5 = match expect_lit(data, o4, ",\"value\":\"") {
        Some(x) => x,
        None => {
            return Err(bad);
        },
    };
    let (value_chars, o6) = match parse_field(data, o5) {
        Some(x) => x,
        None => {
            return Err(bad);
        },
    };
    let o7 = match expect_lit(data, o6, "}") {
        Some(x) => x,
        None => {
            return Err(bad);
        },
    };
    if value_chars.len() != 0 && matches!(ct, CommandType::Rm) {
        return Err(bad);
    }
    let c = Command {
        cmd: ct,
        key: chars_to_string(&key_chars),
        value: chars_to_string(&value_chars),
    };
    proof {
        if c.cmd is Rm {
            assert(value_chars@ =~= Seq::<char>::empty());
        }
        lemma_decode_sound(data@, off as int);
    }
    Ok((c, o7))
}

} // verus!
