use vstd::prelude::*;

verus! {

broadcast use vstd::string::group_string_axioms;

/// The characters of a string slice, in order.
pub fn chars_of(s: &str) -> (v: Vec<char>)
    ensures
        v@ == s@,
{
    let mut v: Vec<char> = Vec::new();
    for c in it: s.chars()
        invariant
            it.seq() == s@,
            v@ == it.seq().take(it.index() as int),
    {
        v.push(c);
    }
    v
}

/// `String::push`: appends one character.
#[verifier::external_body]
fn push_char(s: &mut String, c: char)
    ensures
        final(s)@ == old(s)@.push(c),
{
    s.push(c);
}

/// `char::from_u32`: the character with the given scalar value, or `None` for a
/// surrogate or a value above `0x10FFFF`.
#[verifier::external_body]
fn char_from_u32(v: u32) -> (c: Option<char>)
    ensures
        vstd::utf8::is_scalar(v) ==> c == Some(v as char),
        !vstd::utf8::is_scalar(v) ==> c is None,
{
    char::from_u32(v)
}

/// A string holding the given characters.
pub fn string_from_chars(v: &Vec<char>) -> (s: String)
    ensures
        s@ == v@,
{
    let mut s = String::new();
    let mut i: usize = 0;
    while i < v.len()
        invariant
            i <= v@.len(),
            s@ == v@.take(i as int),
        decreases v@.len() - i,
    {
        push_char(&mut s, v[i]);
        i += 1;
        assert(s@ =~= v@.take(i as int));
    }
    assert(v@.take(v@.len() as int) =~= v@);
    s
}

/// A UTF-16 surrogate unit.
pub open spec fn is_surrogate(u: u16) -> bool {
    0xD800 <= u <= 0xDFFF
}

/// A leading UTF-16 surrogate unit.
pub open spec fn is_high_surrogate(u: u16) -> bool {
    0xD800 <= u <= 0xDBFF
}

/// A trailing UTF-16 surrogate unit.
pub open spec fn is_low_surrogate(u: u16) -> bool {
    0xDC00 <= u <= 0xDFFF
}

/// The scalar value a high and a low surrogate stand for together.
pub open spec fn surrogate_pair_value(high: u16, low: u16) -> u32 {
    (0x10000 + (high - 0xD800) * 0x400 + (low - 0xDC00)) as u32
}

/// UTF-16 decoding: a unit outside the surrogate range is a character, a high
/// surrogate followed by a low one is one character, anything else is an error.
pub open spec fn decode_utf16(u: Seq<u16>) -> Option<Seq<char>>
    decreases u.len(),
{
    if u.len() == 0 {
        Some(Seq::empty())
    } else if !is_surrogate(u[0]) {
        match decode_utf16(u.drop_first()) {
            Some(r) => Some(seq![u[0] as char] + r),
            None => None,
        }
    } else if is_high_surrogate(u[0]) && u.len() >= 2 && is_low_surrogate(u[1]) {
        match decode_utf16(u.skip(2)) {
            Some(r) => Some(seq![surrogate_pair_value(u[0], u[1]) as char] + r),
            None => None,
        }
    } else {
        None
    }
}

/// Decoding never yields more characters than it was given units.
pub proof fn lemma_decode_utf16_len(u: Seq<u16>)
    ensures
        decode_utf16(u) matches Some(r) ==> r.len() <= u.len(),
    decreases u.len(),
{
    if u.len() > 0 {
        lemma_decode_utf16_len(u.drop_first());
        if u.len() >= 2 {
            lemma_decode_utf16_len(u.skip(2));
        }
    }
}

/// The low 16 bits of each character, as `char as u16` gives them.
pub open spec fn truncate_units(s: Seq<char>) -> Seq<u16> {
    s.map_values(|c: char| ((c as u32) % 0x10000) as u16)
}

/// Exec form of [`decode_utf16`].
pub fn decode_utf16_units(u: &Vec<u16>) -> (r: Option<Vec<char>>)
    ensures
        match decode_utf16(u@) {
            Some(d) => r matches Some(v) && v@ == d,
            None => r is None,
        },
{
    let mut out: Vec<char> = Vec::new();
    let mut i: usize = 0;
    assert(u@.skip(0) =~= u@);
    proof {
        match decode_utf16(u@) {
            Some(rest) => {
                assert(out@ + rest =~= rest);
            },
            None => {},
        }
    }
    while i < u.len()
        invariant
            i <= u@.len(),
            decode_utf16(u@) == match decode_utf16(u@.skip(i as int)) {
                Some(rest) => Some(out@ + rest),
                None => None::<Seq<char>>,
            },
        decreases u@.len() - i,
    {
        let ghost tail = u@.skip(i as int);
        let unit = u[i];
        assert(tail[0] == unit);
        if unit < 0xD800 || unit > 0xDFFF {
            assert(tail.drop_first() =~= u@.skip(i + 1));
            assert(vstd::utf8::is_scalar(unit as u32));
            let c = match char_from_u32(unit as u32) {
                Some(c) => c,
                None => {
                    return None;
                },
            };
            assert(c == unit as char);
            let ghost before = out@;
            out.push(c);
            assert(out@ =~= before + seq![unit as char]);
            proof {
                match decode_utf16(u@.skip(i + 1)) {
                    Some(rest) => {
                        assert(before + (seq![unit as char] + rest) =~= out@ + rest);
                    },
                    None => {},
                }
            }
            i += 1;
        } else if unit <= 0xDBFF && i + 1 < u.len() && u[i + 1] >= 0xDC00 && u[i + 1] <= 0xDFFF {
            let low = u[i + 1];
            assert(tail[1] == low);
            assert(tail.skip(2) =~= u@.skip(i + 2));
            let v: u32 = 0x10000 + (unit as u32 - 0xD800) * 0x400 + (low as u32 - 0xDC00);
            assert(v == surrogate_pair_value(unit, low));
            assert(vstd::utf8::is_scalar(v));
            let c = match char_from_u32(v) {
                Some(c) => c,
                None => {
                    return None;
                },
            };
            let ghost before = out@;
            out.push(c);
            assert(out@ =~= before + seq![v as char]);
            proof {
                match decode_utf16(u@.skip(i + 2)) {
                    Some(rest) => {
                        assert(before + (seq![v as char] + rest) =~= out@ + rest);
                    },
                    None => {},
                }
            }
            i += 2;
        } else {
            return None;
        }
    }
    assert(u@.skip(i as int) =~= Seq::<u16>::empty());
    assert(out@ + Seq::<char>::empty() =~= out@);
    Some(out)
}


/// `str::replace`: every non-overlapping occurrence of `from`, found left to
/// right, replaced by `to` (for a non-empty `from`).
pub open spec fn replace_all(s: Seq<char>, from: Seq<char>, to: Seq<char>) -> Seq<char>
    decreases s.len(),
{
    if s.len() == 0 {
        s
    } else if from.len() > 0 && from.len() <= s.len() && s.take(from.len() as int) == from {
        to + replace_all(s.skip(from.len() as int), from, to)
    } else {
        seq![s[0]] + replace_all(s.drop_first(), from, to)
    }
}

/// Whether `pattern` occurs in `s` at position `at`.
fn occurs_at(s: &Vec<char>, at: usize, pattern: &Vec<char>) -> (b: bool)
    requires
        at <= s@.len(),
    ensures
        b == (pattern@.len() <= s@.len() - at && s@.skip(at as int).take(pattern@.len() as int)
            == pattern@),
{
    if pattern.len() > s.len() - at {
        return false;
    }
    let n = s.len();
    let mut j: usize = 0;
    while j < pattern.len()
        invariant
            n == s@.len(),
            at + pattern@.len() <= s@.len(),
            j <= pattern@.len(),
            forall|k: int| 0 <= k < j ==> s@[at + k] == pattern@[k],
        decreases pattern@.len() - j,
    {
        assert(at + j < s@.len());
        if s[at + j] != pattern[j] {
            assert(s@.skip(at as int).take(pattern@.len() as int)[j as int] != pattern@[j as int]);
            return false;
        }
        j += 1;
    }
    assert(s@.skip(at as int).take(pattern@.len() as int) =~= pattern@);
    true
}

/// Exec form of [`replace_all`].
pub fn replace_chars(s: &Vec<char>, from: &Vec<char>, to: &Vec<char>) -> (r: Vec<char>)
    requires
        from@.len() > 0,
    ensures
        r@ == replace_all(s@, from@, to@),
{
    let mut out: Vec<char> = Vec::new();
    let mut i: usize = 0;
    assert(s@.skip(0) =~= s@);
    while i < s.len()
        invariant
            i <= s@.len(),
            from@.len() > 0,
            out@ + replace_all(s@.skip(i as int), from@, to@) == replace_all(s@, from@, to@),
        decreases s@.len() - i,
    {
        let ghost tail = s@.skip(i as int);
        let ghost before = out@;
        if occurs_at(s, i, from) {
            let mut k: usize = 0;
            while k < to.len()
                invariant
                    k <= to@.len(),
                    out@ == before + to@.take(k as int),
                decreases to@.len() - k,
            {
                out.push(to[k]);
                k += 1;
                assert(out@ =~= before + to@.take(k as int));
            }
            assert(to@.take(to@.len() as int) =~= to@);
            assert(tail.skip(from@.len() as int) =~= s@.skip(i + from@.len()));
            assert(before + (to@ + replace_all(s@.skip(i + from@.len()), from@, to@)) =~= out@
                + replace_all(s@.skip(i + from@.len()), from@, to@));
            i += from.len();
        } else {
            out.push(s[i]);
            assert(tail.drop_first() =~= s@.skip(i + 1));
            assert(tail[0] == s@[i as int]);
            assert(before + (seq![s@[i as int]] + replace_all(s@.skip(i + 1), from@, to@)) =~= out@
                + replace_all(s@.skip(i + 1), from@, to@));
            i += 1;
        }
    }
    assert(s@.skip(i as int) =~= Seq::<char>::empty());
    assert(out@ + Seq::<char>::empty() =~= out@);
    out
}

} // verus!
