use vstd::prelude::*;
use vstd::bytes::*;
use vstd::slice::*;
use vstd::utf8::*;
use crate::error::KvsError;

verus! {

/// A mutation recorded in the log: a `Put` binds a key to a value (the
/// store's `set` operation; `Set` itself is a name of the verifier's
/// prelude), a `Remove` erases a key.
pub enum Command {
    Put { key: String, value: String },
    Remove { key: String },
}

/// The mathematical form of a `Command`: keys and values as character
/// sequences.
pub enum SpecCommand {
    Put { key: Seq<char>, value: Seq<char> },
    Remove { key: Seq<char> },
}

impl View for Command {
    type V = SpecCommand;

    open spec fn view(&self) -> SpecCommand {
        match self {
            Command::Put { key, value } => (SpecCommand::Put { key: key@, value: value@ }),
            Command::Remove { key } => (SpecCommand::Remove { key: key@ }),
        }
    }
}

impl Command {
    /// Build a `Put` command, recording a `set` of `key` to `value`.
    pub fn set(key: String, value: String) -> (c: Command)
        ensures
            c@ == (SpecCommand::Put { key: key@, value: value@ }),
    {
        Command::Put { key, value }
    }

    /// Build a `Remove` command.
    pub fn remove(key: String) -> (c: Command)
        ensures
            c@ == (SpecCommand::Remove { key: key@ }),
    {
        Command::Remove { key }
    }
}

/// First byte of a serialized `Put` record.
pub const TAG_SET: u8 = 0;

/// First byte of a serialized `Remove` record.
pub const TAG_REMOVE: u8 = 1;

/// A string is serialized as its UTF-8 byte length (8 bytes, little endian)
/// followed by its UTF-8 bytes.
pub open spec fn spec_encode_str(s: Seq<char>) -> Seq<u8> {
    spec_u64_to_le_bytes(encode_utf8(s).len() as u64) + encode_utf8(s)
}

/// A record is a tag byte followed by the encoded key and, for `Put`, the
/// encoded value.  The format is self-delimiting: a reader knows, after
/// decoding a record, exactly how many bytes it spanned.
pub open spec fn spec_encode(c: SpecCommand) -> Seq<u8> {
    match c {
        SpecCommand::Put { key, value } => seq![TAG_SET] + spec_encode_str(key)
            + spec_encode_str(value),
        SpecCommand::Remove { key } => seq![TAG_REMOVE] + spec_encode_str(key),
    }
}

/// Decode one length-prefixed string from the front of `s`, returning the
/// characters and the number of bytes consumed.
pub open spec fn spec_parse_str(s: Seq<u8>) -> Option<(Seq<char>, int)> {
    if s.len() < 8 {
        None
    } else {
        let n = spec_u64_from_le_bytes(s.subrange(0, 8)) as int;
        if s.len() < 8 + n {
            None
        } else {
            let bs = s.subrange(8, 8 + n);
            if valid_utf8(bs) {
                Some((decode_utf8(bs), 8 + n))
            } else {
                None
            }
        }
    }
}

/// Decode one record from the front of `s`, returning the command and the
/// number of bytes consumed.
pub open spec fn spec_parse(s: Seq<u8>) -> Option<(SpecCommand, int)> {
    if s.len() < 1 {
        None
    } else if s[0] == TAG_SET {
        match spec_parse_str(s.subrange(1, s.len() as int)) {
            Some((key, n1)) => match spec_parse_str(s.subrange(1 + n1, s.len() as int)) {
                Some((value, n2)) => Some(((SpecCommand::Put { key, value }), 1 + n1 + n2)),
                None => None,
            },
            None => None,
        }
    } else if s[0] == TAG_REMOVE {
        match spec_parse_str(s.subrange(1, s.len() as int)) {
            Some((key, n1)) => Some(((SpecCommand::Remove { key }), 1 + n1)),
            None => None,
        }
    } else {
        None
    }
}

/// A successful string decode consumes between 8 and `s.len()` bytes.
pub proof fn lemma_parse_str_len(s: Seq<u8>)
    requires
        spec_parse_str(s) is Some,
    ensures
        8 <= spec_parse_str(s).unwrap().1 <= s.len(),
{
}

/// A successful record decode consumes between 9 and `s.len()` bytes.
pub proof fn lemma_parse_len(s: Seq<u8>)
    requires
        spec_parse(s) is Some,
    ensures
        9 <= spec_parse(s).unwrap().1 <= s.len(),
{
    let tail = s.subrange(1, s.len() as int);
    if s[0] == TAG_SET {
        let (key, n1) = spec_parse_str(tail).unwrap();
        lemma_parse_str_len(tail);
        let tail2 = s.subrange(1 + n1, s.len() as int);
        lemma_parse_str_len(tail2);
    } else {
        lemma_parse_str_len(tail);
    }
}

/// A string decode depends only on the bytes it consumes: any byte sequence
/// that agrees with `s` on that prefix decodes identically.
pub proof fn lemma_parse_str_stable(s: Seq<u8>, t: Seq<u8>)
    requires
        spec_parse_str(s) is Some,
        t.len() >= spec_parse_str(s).unwrap().1,
        t.subrange(0, spec_parse_str(s).unwrap().1) == s.subrange(
            0,
            spec_parse_str(s).unwrap().1,
        ),
    ensures
        spec_parse_str(t) == spec_parse_str(s),
{
    let n = spec_parse_str(s).unwrap().1;
    lemma_parse_str_len(s);
    assert(t.subrange(0, 8) =~= t.subrange(0, n).subrange(0, 8));
    assert(s.subrange(0, 8) =~= s.subrange(0, n).subrange(0, 8));
    assert(t.subrange(0, 8) == s.subrange(0, 8));
    let m = spec_u64_from_le_bytes(s.subrange(0, 8)) as int;
    assert(n == 8 + m);
    assert(t.subrange(8, 8 + m) =~= t.subrange(0, n).subrange(8, n as int));
    assert(s.subrange(8, 8 + m) =~= s.subrange(0, n).subrange(8, n as int));
    assert(t.subrange(8, 8 + m) == s.subrange(8, 8 + m));
}

/// A record decode depends only on the bytes it consumes.
pub proof fn lemma_parse_stable(s: Seq<u8>, t: Seq<u8>)
    requires
        spec_parse(s) is Some,
        t.len() >= spec_parse(s).unwrap().1,
        t.subrange(0, spec_parse(s).unwrap().1) == s.subrange(0, spec_parse(s).unwrap().1),
    ensures
        spec_parse(t) == spec_parse(s),
{
    let n = spec_parse(s).unwrap().1;
    lemma_parse_len(s);
    assert(t[0] == t.subrange(0, n)[0]);
    assert(s[0] == s.subrange(0, n)[0]);
    assert(t[0] == s[0]);
    let stail = s.subrange(1, s.len() as int);
    let ttail = t.subrange(1, t.len() as int);
    if s[0] == TAG_SET {
        let (key, n1) = spec_parse_str(stail).unwrap();
        lemma_parse_str_len(stail);
        assert(ttail.subrange(0, n1) =~= t.subrange(0, n).subrange(1, 1 + n1));
        assert(stail.subrange(0, n1) =~= s.subrange(0, n).subrange(1, 1 + n1));
        lemma_parse_str_stable(stail, ttail);
        let stail2 = s.subrange(1 + n1, s.len() as int);
        let ttail2 = t.subrange(1 + n1, t.len() as int);
        let (value, n2) = spec_parse_str(stail2).unwrap();
        lemma_parse_str_len(stail2);
        assert(ttail2.subrange(0, n2) =~= t.subrange(0, n).subrange(1 + n1, 1 + n1 + n2));
        assert(stail2.subrange(0, n2) =~= s.subrange(0, n).subrange(1 + n1, 1 + n1 + n2));
        lemma_parse_str_stable(stail2, ttail2);
    } else if s[0] == TAG_REMOVE {
        let (key, n1) = spec_parse_str(stail).unwrap();
        lemma_parse_str_len(stail);
        assert(ttail.subrange(0, n1) =~= t.subrange(0, n).subrange(1, 1 + n1));
        assert(stail.subrange(0, n1) =~= s.subrange(0, n).subrange(1, 1 + n1));
        lemma_parse_str_stable(stail, ttail);
    }
}

/// Decoding an encoded string, with any bytes following it, yields the
/// original characters and consumes exactly the encoding's length.
pub proof fn lemma_parse_str_encode(s: Seq<char>, rest: Seq<u8>)
    requires
        encode_utf8(s).len() < 0x1_0000_0000_0000_0000,
    ensures
        spec_parse_str(spec_encode_str(s) + rest) == Some(
            (s, spec_encode_str(s).len() as int),
        ),
{
    lemma_auto_spec_u64_to_from_le_bytes();
    let e = encode_utf8(s);
    let lenb = spec_u64_to_le_bytes(e.len() as u64);
    let whole = spec_encode_str(s) + rest;
    assert(whole.subrange(0, 8) =~= lenb);
    let n = spec_u64_from_le_bytes(whole.subrange(0, 8)) as int;
    assert(n == e.len());
    assert(whole.subrange(8, 8 + n) =~= e);
    encode_utf8_valid_utf8(s);
    encode_utf8_decode_utf8(s);
}

/// Decoding an encoded record, with any bytes following it, yields the
/// original command and consumes exactly the encoding's length.
pub proof fn lemma_parse_encode(c: SpecCommand, rest: Seq<u8>)
    requires
        spec_cmd_fits(c),
    ensures
        spec_parse(spec_encode(c) + rest) == Some((c, spec_encode(c).len() as int)),
{
    match c {
        SpecCommand::Put { key, value } => {
            let e1 = spec_encode_str(key);
            let e2 = spec_encode_str(value);
            let whole = spec_encode(c) + rest;
            assert(whole[0] == TAG_SET);
            assert(whole.subrange(1, whole.len() as int) =~= e1 + (e2 + rest));
            lemma_parse_str_encode(key, e2 + rest);
            assert(whole.subrange(1 + e1.len() as int, whole.len() as int) =~= e2 + rest);
            lemma_parse_str_encode(value, rest);
        },
        SpecCommand::Remove { key } => {
            let e1 = spec_encode_str(key);
            let whole = spec_encode(c) + rest;
            assert(whole[0] == TAG_REMOVE);
            assert(whole.subrange(1, whole.len() as int) =~= e1 + rest);
            lemma_parse_str_encode(key, rest);
        },
    }
}

/// The key and value of a command are small enough for their byte lengths to
/// be written as 64-bit integers.  Every `String` held in memory satisfies
/// this.
pub open spec fn spec_cmd_fits(c: SpecCommand) -> bool {
    match c {
        SpecCommand::Put { key, value } => encode_utf8(key).len() < 0x1_0000_0000_0000_0000
            && encode_utf8(value).len() < 0x1_0000_0000_0000_0000,
        SpecCommand::Remove { key } => encode_utf8(key).len() < 0x1_0000_0000_0000_0000,
    }
}

/// Append the bytes of a slice to a vector.
pub(crate) fn push_bytes(out: &mut Vec<u8>, bs: &[u8])
    ensures
        final(out)@ == old(out)@ + bs@,
{
    let ghost start = out@;
    let mut i: usize = 0;
    while i < bs.len()
        invariant
            i <= bs@.len(),
            out@ == start + bs@.subrange(0, i as int),
        decreases bs@.len() - i,
    {
        out.push(*slice_index_get(bs, i));
        i = i + 1;
    }
    assert(out@ =~= start + bs@);
}

/// Append the serialized form of one string to `out`.
fn push_str_encoded(out: &mut Vec<u8>, s: &String)
    ensures
        final(out)@ == old(out)@ + spec_encode_str(s@),
        encode_utf8(s@).len() < 0x1_0000_0000_0000_0000,
{
    let ghost start = out@;
    let bs: &[u8] = s.as_str().as_bytes();
    let len64: u64 = bs.len() as u64;
    let mut lenv: Vec<u8> = u64_to_le_bytes(len64);
    out.append(&mut lenv);
    push_bytes(out, bs);
    assert(out@ =~= start + spec_encode_str(s@));
}

/// Serialize one command into bytes.
pub fn encode_command(cmd: &Command) -> (out: Vec<u8>)
    ensures
        out@ == spec_encode(cmd@),
        spec_cmd_fits(cmd@),
{
    let mut out: Vec<u8> = Vec::new();
    match cmd {
        Command::Put { key, value } => {
            out.push(TAG_SET);
            push_str_encoded(&mut out, key);
            push_str_encoded(&mut out, value);
            assert(out@ =~= spec_encode(cmd@));
        },
        Command::Remove { key } => {
            out.push(TAG_REMOVE);
            push_str_encoded(&mut out, key);
            assert(out@ =~= spec_encode(cmd@));
        },
    }
    out
}

/// Relies on `String::from_utf8`: it succeeds exactly when the bytes are a
/// valid UTF-8 encoding, and the returned string then consists of exactly
/// those bytes.
#[verifier::external_body]
fn bytes_to_string(v: Vec<u8>) -> (r: Result<String, KvsError>)
    ensures
        r is Ok <==> valid_utf8(v@),
        r matches Ok(s) ==> encode_utf8(s@) == v@,
        r matches Err(e) ==> e == KvsError::Serialization,
{
    match String::from_utf8(v) {
        Ok(s) => Ok(s),
        Err(_) => Err(KvsError::Serialization),
    }
}

/// Decode one length-prefixed string from `data` starting at offset `from`.
fn parse_str(data: &[u8], from: usize) -> (r: Result<(String, usize), KvsError>)
    requires
        from <= data@.len(),
    ensures
        ({
            let tail = data@.subrange(from as int, data@.len() as int);
            match spec_parse_str(tail) {
                Some((cs, n)) => r matches Ok(p) && p.0@ == cs && p.1 == n,
                None => r == Err::<(String, usize), KvsError>(KvsError::Serialization),
            }
        }),
{
    let ghost tail = data@.subrange(from as int, data@.len() as int);
    if data.len() - from < 8 {
        return Err(KvsError::Serialization);
    }
    let lenb = slice_subrange(data, from, from + 8);
    assert(lenb@ =~= tail.subrange(0, 8));
    let n64 = u64_from_le_bytes(lenb);
    if ((data.len() - from - 8) as u64) < n64 {
        assert(tail.len() < 8 + n64 as int);
        return Err(KvsError::Serialization);
    }
    let n = n64 as usize;
    let sb = slice_subrange(data, from + 8, from + 8 + n);
    assert(sb@ =~= tail.subrange(8, 8 + n64 as int));
    let bv = slice_to_vec(sb);
    match bytes_to_string(bv) {
        Ok(s) => {
            proof {
                encode_utf8_decode_utf8(s@);
            }
            Ok((s, 8 + n))
        },
        Err(_) => Err(KvsError::Serialization),
    }
}

/// Decode one record from `data` starting at offset `from`, returning the
/// command and the number of bytes it spans.  Fails with `Serialization`
/// exactly when the bytes do not form a record.
pub fn parse_command(data: &[u8], from: usize) -> (r: Result<(Command, usize), KvsError>)
    requires
        from <= data@.len(),
    ensures
        ({
            let tail = data@.subrange(from as int, data@.len() as int);
            match spec_parse(tail) {
                Some((c, n)) => r matches Ok(p) && p.0@ == c && p.1 == n,
                None => r == Err::<(Command, usize), KvsError>(KvsError::Serialization),
            }
        }),
{
    let ghost tail = data@.subrange(from as int, data@.len() as int);
    if data.len() - from < 1 {
        return Err(KvsError::Serialization);
    }
    let tag = *slice_index_get(data, from);
    assert(tag == tail[0]);
    if tag == TAG_SET {
        assert(data@.subrange(from as int + 1, data@.len() as int) =~= tail.subrange(
            1,
            tail.len() as int,
        ));
        match parse_str(data, from + 1) {
            Ok((key, n1)) => {
                proof {
                    lemma_parse_str_len(tail.subrange(1, tail.len() as int));
                }
                assert(data@.subrange(from as int + 1 + n1 as int, data@.len() as int)
                    =~= tail.subrange(1 + n1 as int, tail.len() as int));
                match parse_str(data, from + 1 + n1) {
                    Ok((value, n2)) => Ok((Command::Put { key, value }, 1 + n1 + n2)),
                    Err(_) => Err(KvsError::Serialization),
                }
            },
            Err(_) => Err(KvsError::Serialization),
        }
    } else if tag == TAG_REMOVE {
        assert(data@.subrange(from as int + 1, data@.len() as int) =~= tail.subrange(
            1,
            tail.len() as int,
        ));
        match parse_str(data, from + 1) {
            Ok((key, n1)) => Ok((Command::Remove { key }, 1 + n1)),
            Err(_) => Err(KvsError::Serialization),
        }
    } else {
        Err(KvsError::Serialization)
    }
}

} // verus!
