use vstd::prelude::*;
use vstd::utf8::encode_utf8;

use crate::message_processing::{
    backward_scan, clamp_start, default_escape, default_marker, forward_scan,
    lemma_utf8_len_concat, max_int, min_int, scan_left_to_right, scan_right_to_left,
    spec_find_message_end_bound,
    spec_cut_message, spec_cut_messages, spec_insert_on_queue, spec_process_messages, spec_split_client_input, spec_substring_utf16,
    utf8_len, window, ScanOutcome,
};
use crate::text::{decode_utf16, replace_all, truncate_units};

verus! {

broadcast use vstd::seq::group_seq_axioms;

/// `message` with every default end marker escaped.
pub open spec fn escaped(message: Seq<char>) -> Seq<char> {
    replace_all(message, default_marker(), default_escape())
}

/// What is sent for each message with the default endmark, one after another.
pub open spec fn framed(messages: Seq<Seq<char>>) -> Seq<char>
    decreases messages.len(),
{
    if messages.len() == 0 {
        Seq::empty()
    } else {
        escaped(messages[0]) + default_marker() + framed(messages.drop_first())
    }
}

/// Every character lies in the Basic Multilingual Plane.
pub open spec fn is_bmp(s: Seq<char>) -> bool {
    forall|i: int| 0 <= i < s.len() ==> (s[i] as u32) < 0x10000
}

/// A message that survives the trip: its characters are in the Basic
/// Multilingual Plane and it does not end with a backslash.
pub open spec fn sendable(message: Seq<char>) -> bool {
    &&& is_bmp(message)
    &&& (message.len() > 0 ==> message.last() != '\\')
}

/// `s` begins with the default end marker.
pub open spec fn starts_with_marker(s: Seq<char>) -> bool {
    3 <= s.len() && s.take(3) == default_marker()
}

proof fn lemma_escaped_first(m: Seq<char>)
    requires
        m.len() > 0,
    ensures
        escaped(m).len() > 0,
        escaped(m)[0] == (if starts_with_marker(m) {
            '\\'
        } else {
            m[0]
        }),
        starts_with_marker(m) ==> escaped(m) == default_escape() + escaped(m.skip(3)),
        !starts_with_marker(m) ==> escaped(m) == seq![m[0]] + escaped(m.drop_first()),
{
}

proof fn lemma_escaped_empty(m: Seq<char>)
    ensures
        m.len() == 0 ==> escaped(m).len() == 0,
{
}

/// An escaped message never starts with an end marker.
proof fn lemma_escaped_no_marker_at_start(m: Seq<char>)
    ensures
        !starts_with_marker(escaped(m)),
{
    if m.len() > 0 {
        lemma_escaped_first(m);
        let e = escaped(m);
        if !starts_with_marker(m) && starts_with_marker(e) {
            assert(e[0] == 'E');
            let m1 = m.drop_first();
            let r = escaped(m1);
            assert(e == seq![m[0]] + r);
            assert(r.len() >= 2);
            lemma_escaped_empty(m1);
            lemma_escaped_first(m1);
            assert(r[0] == 'O');
            assert(!starts_with_marker(m1));
            let m2 = m1.drop_first();
            let r2 = escaped(m2);
            assert(r == seq![m1[0]] + r2);
            assert(r2.len() >= 1);
            lemma_escaped_empty(m2);
            lemma_escaped_first(m2);
            assert(r2[0] == 'F');
            assert(!starts_with_marker(m2));
            assert(m.take(3) =~= default_marker());
        }
    }
}

/// Every end marker inside an escaped message is preceded by a backslash.
proof fn lemma_escaped_markers_are_escaped(m: Seq<char>, p: int)
    requires
        0 <= p,
        p + 3 <= escaped(m).len(),
        escaped(m).subrange(p, p + 3) == default_marker(),
    ensures
        p >= 1,
        escaped(m)[p - 1] == '\\',
    decreases m.len(),
{
    let e = escaped(m);
    if m.len() == 0 {
        lemma_escaped_empty(m);
    } else {
        lemma_escaped_first(m);
        assert(e.subrange(p, p + 3)[0] == 'E');
        assert(e.subrange(p, p + 3)[1] == 'O');
        if starts_with_marker(m) {
            let r = escaped(m.skip(3));
            if p >= 4 {
                assert(r.subrange(p - 4, p - 1) =~= e.subrange(p, p + 3));
                lemma_escaped_markers_are_escaped(m.skip(3), p - 4);
            } else {
                assert(e[1] == 'E');
                assert(e[2] == 'O');
                assert(e[3] == 'F');
            }
        } else {
            let r = escaped(m.drop_first());
            if p == 0 {
                lemma_escaped_no_marker_at_start(m);
                assert(e.take(3) =~= e.subrange(0, 3));
            } else {
                assert(r.subrange(p - 1, p + 2) =~= e.subrange(p, p + 3));
                if p == 1 {
                    lemma_escaped_no_marker_at_start(m.drop_first());
                    assert(r.take(3) =~= r.subrange(0, 3));
                } else {
                    lemma_escaped_markers_are_escaped(m.drop_first(), p - 1);
                }
            }
        }
    }
}

/// Turning escaped end markers back into end markers, as reading does, gives
/// back exactly the message that sending escaped.
pub proof fn law_unescape_undoes_escape(m: Seq<char>)
    ensures
        replace_all(escaped(m), default_escape(), default_marker()) == m,
    decreases m.len(),
{
    let e = escaped(m);
    if m.len() == 0 {
        lemma_escaped_empty(m);
    } else {
        lemma_escaped_first(m);
        if starts_with_marker(m) {
            law_unescape_undoes_escape(m.skip(3));
            assert(e.take(4) =~= default_escape());
            assert(e.skip(4) =~= escaped(m.skip(3)));
            assert(default_marker() + m.skip(3) =~= m);
        } else {
            let r = escaped(m.drop_first());
            law_unescape_undoes_escape(m.drop_first());
            lemma_escaped_no_marker_at_start(m.drop_first());
            if 4 <= e.len() && e.take(4) == default_escape() {
                assert(default_escape().skip(1) =~= default_marker());
                assert(r.len() >= 3);
                assert(r.take(3) =~= e.take(4).skip(1));
                assert(starts_with_marker(r));
                assert(false);
            }
            assert(e.drop_first() =~= r);
            assert(seq![m[0]] + m.drop_first() =~= m);
        }
    }
}

/// The last character of an escaped message is a backslash only when the
/// message ends with one.
proof fn lemma_escaped_last(m: Seq<char>)
    requires
        m.len() > 0,
    ensures
        escaped(m).len() > 0,
        escaped(m).last() == '\\' ==> m.last() == '\\',
    decreases m.len(),
{
    lemma_escaped_first(m);
    if starts_with_marker(m) {
        let rest = m.skip(3);
        if rest.len() == 0 {
            lemma_escaped_empty(rest);
            assert(escaped(m) =~= default_escape());
        } else {
            lemma_escaped_last(rest);
            assert(rest.last() == m.last());
        }
    } else {
        let rest = m.drop_first();
        if rest.len() == 0 {
            lemma_escaped_empty(rest);
        } else {
            lemma_escaped_last(rest);
            assert(rest.last() == m.last());
        }
    }
}

/// Escaping keeps the characters in the Basic Multilingual Plane.
proof fn lemma_escaped_bmp(m: Seq<char>)
    requires
        is_bmp(m),
    ensures
        is_bmp(escaped(m)),
    decreases m.len(),
{
    if m.len() > 0 {
        lemma_escaped_first(m);
        if starts_with_marker(m) {
            lemma_escaped_bmp(m.skip(3));
            let r = escaped(m.skip(3));
            assert forall|i: int| 0 <= i < escaped(m).len() implies (escaped(m)[i] as u32)
                < 0x10000 by {
                if i >= 4 {
                    assert(escaped(m)[i] == r[i - 4]);
                }
            }
        } else {
            lemma_escaped_bmp(m.drop_first());
            let r = escaped(m.drop_first());
            assert forall|i: int| 0 <= i < escaped(m).len() implies (escaped(m)[i] as u32)
                < 0x10000 by {
                if i >= 1 {
                    assert(escaped(m)[i] == r[i - 1]);
                }
            }
        }
    }
}

/// Characters of the Basic Multilingual Plane come back unchanged from being
/// cut to 16 bits and decoded.
proof fn lemma_bmp_roundtrip(s: Seq<char>)
    requires
        is_bmp(s),
    ensures
        decode_utf16(truncate_units(s)) == Some(s),
    decreases s.len(),
{
    let u = truncate_units(s);
    if s.len() > 0 {
        let rest = s.drop_first();
        assert(u.drop_first() =~= truncate_units(rest));
        lemma_bmp_roundtrip(rest);
        let c = s[0];
        assert((c as u32) < 0x10000);
        let v: u32 = c as u32;
        vstd::utf8::char_is_scalar(c);
        vstd::utf8::char_u32_cast(c, v);
        assert(u[0] as u32 == v);
        assert((u[0] as char) == (v as char));
        assert((u[0] as char) == c);
        assert(seq![c] + rest =~= s);
    }
}

/// The left-to-right search over a framed message followed by anything finds
/// the end marker that closes the message.
proof fn lemma_scan_finds_frame_end(m: Seq<char>, tail: Seq<char>, l: nat, ci: nat)
    requires
        sendable(m),
        ({
            let t = escaped(m) + default_marker() + tail;
            &&& t.len() <= l
            &&& l <= usize::MAX
        }),
        ci <= escaped(m).len() + 2,
    ensures
        forward_scan(
            escaped(m) + default_marker() + tail,
            l,
            default_marker(),
            default_escape(),
            0,
            3,
            l,
            ci,
        ) == ScanOutcome::Found(escaped(m).len() as usize),
    decreases escaped(m).len() + 2 - ci,
{
    let e = escaped(m);
    let k: int = e.len() as int;
    let t = e + default_marker() + tail;
    let c = ci + 1;
    assert(t[k as int] == 'E');
    assert(t[k + 1] == 'O');
    assert(t[k + 2] == 'F');
    if c == k + 3 {
        assert(t.subrange(k as int, k + 3) =~= default_marker());
        if k > 0 {
            lemma_escaped_last(m);
            assert(t[k - 1] == e.last());
            assert(t.subrange(k - 1, k + 3)[0] == t[k - 1]);
        }
    } else {
        lemma_scan_finds_frame_end(m, tail, l, c);
        if c >= 3 {
            let w = t.subrange(c - 3, c as int);
            if w == default_marker() {
                let p = c - 3;
                assert(w[0] == t[p]);
                assert(w[1] == t[p + 1]);
                assert(w[2] == t[p + 2]);
                if p + 3 <= k {
                    assert(e.subrange(p, p + 3) =~= w);
                    lemma_escaped_markers_are_escaped(m, p);
                    assert(t.subrange(p - 1, c as int) =~= default_escape());
                }
            }
        }
    }
}

/// Reading back one framed message followed by a tail gives the message and
/// leaves the tail to be read.
proof fn lemma_process_one_frame(m: Seq<char>, tail: Seq<char>)
    requires
        sendable(m),
        is_bmp(tail),
        utf8_len(escaped(m) + default_marker() + tail) <= usize::MAX,
    ensures
        ({
            let t = escaped(m) + default_marker() + tail;
            spec_process_messages(t, 0, default_marker(), default_escape()) == match spec_process_messages(
                tail,
                0,
                default_marker(),
                default_escape(),
            ) {
                Some((ms, r)) => Some((seq![m] + ms, r)),
                None => None,
            }
        }),
{
    let e = escaped(m);
    let k: int = e.len() as int;
    let t = e + default_marker() + tail;
    let l = utf8_len(t);
    crate::message_processing::lemma_utf8_len_ge(t);
    lemma_scan_finds_frame_end(m, tail, l, 0);
    assert(scan_left_to_right(t, l, default_marker(), default_escape(), 0, l) == ScanOutcome::Found(
        k as usize,
    ));
    lemma_escaped_bmp(m.take(m.len() as int));
    assert(m.take(m.len() as int) =~= m);
    lemma_bmp_roundtrip(e);
    assert(t.subrange(0, k as int) =~= e);
    lemma_bmp_roundtrip(tail);
    assert(t.subrange(k + 3, t.len() as int) =~= tail);
    assert(spec_substring_utf16(t, 0, k as nat) == Some(e));
    assert(spec_substring_utf16(t, (k + 3) as nat, l) == Some(tail));
    law_unescape_undoes_escape(m);
}

/// Texts framed with the default endmark are read back as exactly the messages
/// that were framed, in order, with nothing left over: the escaping of end
/// markers inside a message is undone, and no message is cut short or merged
/// with the next. Holds for messages of the Basic Multilingual Plane that do
/// not end with a backslash, whose framed text fits in memory.
pub proof fn law_framed_messages_read_back(messages: Seq<Seq<char>>)
    requires
        forall|i: int| 0 <= i < messages.len() ==> sendable(#[trigger] messages[i]),
        utf8_len(framed(messages)) <= usize::MAX,
    ensures
        spec_process_messages(framed(messages), 0, default_marker(), default_escape()) == Some(
            (messages, Seq::<char>::empty()),
        ),
    decreases messages.len(),
{
    if messages.len() == 0 {
        assert(encode_utf8(Seq::<char>::empty()) =~= Seq::<u8>::empty());
        assert(utf8_len(Seq::<char>::empty()) == 0);
    } else {
        let m = messages[0];
        let rest = messages.drop_first();
        let head = escaped(m) + default_marker();
        assert(framed(messages) == head + framed(rest));
        lemma_utf8_len_concat(head, framed(rest));
        assert forall|i: int| 0 <= i < rest.len() implies sendable(#[trigger] rest[i]) by {
            assert(rest[i] == messages[i + 1]);
        }
        assert(sendable(messages[0]));
        law_framed_messages_read_back(rest);
        lemma_framed_bmp(rest);
        assert(head + framed(rest) =~= escaped(m) + default_marker() + framed(rest));
        lemma_process_one_frame(m, framed(rest));
        assert(seq![m] + rest =~= messages);
    }
}

proof fn lemma_framed_bmp(messages: Seq<Seq<char>>)
    requires
        forall|i: int| 0 <= i < messages.len() ==> sendable(#[trigger] messages[i]),
    ensures
        is_bmp(framed(messages)),
    decreases messages.len(),
{
    if messages.len() > 0 {
        let m = messages[0];
        let rest = messages.drop_first();
        assert forall|i: int| 0 <= i < rest.len() implies sendable(#[trigger] rest[i]) by {
            assert(rest[i] == messages[i + 1]);
        }
        lemma_framed_bmp(rest);
        assert(sendable(messages[0]));
        lemma_escaped_bmp(m);
        let f = framed(messages);
        let e = escaped(m);
        assert forall|i: int| 0 <= i < f.len() implies (f[i] as u32) < 0x10000 by {
            if i < e.len() {
                assert(f[i] == e[i]);
            } else if i < e.len() + 3 {
                assert(f[i] == default_marker()[i - e.len()]);
            } else {
                assert(f[i] == framed(rest)[i - e.len() - 3]);
            }
        }
    }
}


/// The length of the first `j` framed messages.
pub open spec fn frame_end(messages: Seq<Seq<char>>, j: int) -> int {
    framed(messages.take(j)).len() as int
}

/// An end marker starts at `q` in `s` and is not the end of an escape.
pub open spec fn unescaped_marker_at(s: Seq<char>, q: int) -> bool {
    &&& 0 <= q
    &&& q + 3 <= s.len()
    &&& s.subrange(q, q + 3) == default_marker()
    &&& !(q >= 1 && s.subrange(q - 1, q + 3) == default_escape())
}

proof fn lemma_framed_concat(a: Seq<Seq<char>>, b: Seq<Seq<char>>)
    ensures
        framed(a + b) == framed(a) + framed(b),
    decreases a.len(),
{
    if a.len() == 0 {
        assert(a + b =~= b);
        assert(framed(a) + framed(b) =~= framed(b));
    } else {
        lemma_framed_concat(a.drop_first(), b);
        assert((a + b).drop_first() =~= a.drop_first() + b);
        assert((a + b)[0] == a[0]);
        assert(escaped(a[0]) + default_marker() + (framed(a.drop_first()) + framed(b)) =~= (
        escaped(a[0]) + default_marker() + framed(a.drop_first())) + framed(b));
    }
}

proof fn lemma_framed_one(m: Seq<char>)
    ensures
        framed(seq![m]) == escaped(m) + default_marker(),
{
    assert(seq![m].drop_first() =~= Seq::<Seq<char>>::empty());
    assert(seq![m][0] == m);
    assert(framed(Seq::<Seq<char>>::empty()) =~= Seq::<char>::empty());
    assert(escaped(m) + default_marker() + Seq::<char>::empty() =~= escaped(m) + default_marker());
}

/// The framed messages split after the first `j` of them.
proof fn lemma_framed_split(messages: Seq<Seq<char>>, j: int)
    requires
        0 <= j <= messages.len(),
    ensures
        framed(messages) == framed(messages.take(j)) + framed(messages.skip(j)),
        j < messages.len() ==> frame_end(messages, j + 1) == frame_end(messages, j) + escaped(
            messages[j],
        ).len() + 3,
        frame_end(messages, j) <= framed(messages).len(),
{
    assert(messages.take(j) + messages.skip(j) =~= messages);
    lemma_framed_concat(messages.take(j), messages.skip(j));
    if j < messages.len() {
        assert(messages.take(j + 1) =~= messages.take(j) + seq![messages[j]]);
        lemma_framed_concat(messages.take(j), seq![messages[j]]);
        lemma_framed_one(messages[j]);
    }
}

/// Frame ends grow by at least the length of an end marker per message.
proof fn lemma_frame_end_grows(messages: Seq<Seq<char>>, i: int, j: int)
    requires
        0 <= i <= j <= messages.len(),
    ensures
        frame_end(messages, j) >= frame_end(messages, i) + 3 * (j - i),
    decreases j - i,
{
    if i < j {
        lemma_frame_end_grows(messages, i, j - 1);
        lemma_framed_split(messages, j - 1);
    }
}

/// The first `j + 1` frames are the first message's frame followed by the
/// first `j` frames of the rest.
proof fn lemma_frame_end_shift(messages: Seq<Seq<char>>, j: int)
    requires
        0 <= j < messages.len(),
    ensures
        frame_end(messages, j + 1) == escaped(messages[0]).len() + 3 + frame_end(
            messages.drop_first(),
            j,
        ),
{
    let t = messages.take(j + 1);
    assert(t.drop_first() =~= messages.drop_first().take(j));
    assert(t[0] == messages[0]);
}

/// In framed messages, the unescaped end markers are exactly the ones that
/// close a message.
#[verifier::spinoff_prover]
#[verifier::rlimit(40)]
proof fn lemma_unescaped_in_framed(messages: Seq<Seq<char>>, q: int)
    requires
        forall|i: int| 0 <= i < messages.len() ==> sendable(#[trigger] messages[i]),
        0 <= q,
        q + 3 <= framed(messages).len(),
    ensures
        unescaped_marker_at(framed(messages), q) <==> exists|j: int|
            1 <= j <= messages.len() && q + 3 == #[trigger] frame_end(messages, j),
    decreases messages.len(),
{
    let m = messages[0];
    let rest = messages.drop_first();
    let e = escaped(m);
    let k = e.len() as int;
    let f = framed(messages);
    let fr = framed(rest);
    assert(f == e + default_marker() + fr);
    assert(f[k] == 'E');
    assert(f[k + 1] == 'O');
    assert(f[k + 2] == 'F');
    assert forall|i: int| 0 <= i < rest.len() implies sendable(#[trigger] rest[i]) by {
        assert(rest[i] == messages[i + 1]);
    }
    assert(sendable(messages[0]));
    assert forall|j: int| 1 <= j <= messages.len() implies #[trigger] frame_end(messages, j) == k
        + 3 + frame_end(rest, j - 1) by {
        lemma_frame_end_shift(messages, j - 1);
    }
    if q + 3 <= k {
        if f.subrange(q, q + 3) == default_marker() {
            assert(e.subrange(q, q + 3) =~= f.subrange(q, q + 3));
            lemma_escaped_markers_are_escaped(m, q);
            assert(f.subrange(q - 1, q + 3) =~= default_escape());
        }
        if exists|j: int| 1 <= j <= messages.len() && q + 3 == #[trigger] frame_end(messages, j) {
            let j = choose|j: int| 1 <= j <= messages.len() && q + 3 == #[trigger] frame_end(messages, j);
            lemma_frame_end_grows(rest, 0, j - 1);
        }
    } else if q < k {
        assert(f.subrange(q, q + 3)[k - q] == 'E');
        if exists|j: int| 1 <= j <= messages.len() && q + 3 == #[trigger] frame_end(messages, j) {
            let j = choose|j: int| 1 <= j <= messages.len() && q + 3 == #[trigger] frame_end(messages, j);
            lemma_frame_end_grows(rest, 0, j - 1);
        }
    } else if q == k {
        assert(f.subrange(q, q + 3) =~= default_marker());
        if k > 0 {
            lemma_escaped_last(m);
            assert(f[k - 1] == e.last());
            assert(f.subrange(k - 1, k + 3)[0] == f[k - 1]);
        }
        assert(frame_end(messages, 1) == k + 3) by {
            assert(frame_end(rest, 0) == 0) by {
                assert(rest.take(0) =~= Seq::<Seq<char>>::empty());
            }
        }
    } else if q < k + 3 {
        assert(f.subrange(q, q + 3)[0] == f[q]);
        if exists|j: int| 1 <= j <= messages.len() && q + 3 == #[trigger] frame_end(messages, j) {
            let j = choose|j: int| 1 <= j <= messages.len() && q + 3 == #[trigger] frame_end(messages, j);
            if j == 1 {
                assert(rest.take(0) =~= Seq::<Seq<char>>::empty());
            } else {
                lemma_frame_end_grows(rest, 0, j - 1);
                assert(rest.take(0) =~= Seq::<Seq<char>>::empty());
            }
        }
    } else {
        let q2 = q - (k + 3);
        assert(f.subrange(q, q + 3) =~= fr.subrange(q2, q2 + 3));
        if q2 >= 1 {
            assert(f.subrange(q - 1, q + 3) =~= fr.subrange(q2 - 1, q2 + 3));
        } else {
            assert(f.subrange(q - 1, q + 3)[0] == f[k + 2]);
        }
        lemma_unescaped_in_framed(rest, q2);
        if unescaped_marker_at(fr, q2) {
            let j2 = choose|j: int| 1 <= j <= rest.len() && q2 + 3 == #[trigger] frame_end(rest, j);
            assert(frame_end(messages, j2 + 1) == k + 3 + frame_end(rest, j2));
        }
        if exists|j: int| 1 <= j <= messages.len() && q + 3 == #[trigger] frame_end(messages, j) {
            let j = choose|j: int| 1 <= j <= messages.len() && q + 3 == #[trigger] frame_end(messages, j);
            assert(rest.take(0) =~= Seq::<Seq<char>>::empty());
            assert(j != 1);
            assert(q2 + 3 == frame_end(rest, j - 1));
        }
    }
}


/// Right to left over ASCII text, the search finds the last unescaped end
/// marker among the positions it looks at, or nothing when there is none.
proof fn lemma_backward_finds_last(p: Seq<char>, up: nat, ci: nat)
    requires
        1 <= ci <= p.len(),
    ensures
        ({
            let lo: int = if up < ci - 1 {
                up as int
            } else {
                ci - 1
            };
            let outcome = backward_scan(
                p,
                0,
                default_marker(),
                default_escape(),
                p.len(),
                up,
                ci,
            );
            &&& (forall|q: int| lo <= q <= ci - 1 ==> !#[trigger] unescaped_marker_at(p, q))
                ==> outcome == ScanOutcome::NotFound
            &&& forall|q0: int|
                lo <= q0 <= ci - 1 && #[trigger] unescaped_marker_at(p, q0) && (forall|q: int|
                    q0 < q <= ci - 1 ==> !#[trigger] unescaped_marker_at(p, q)) ==> outcome
                    == ScanOutcome::Found(q0 as usize)
        }),
    decreases ci,
{
    let q = ci - 1;
    let hi = min_int(q + 3, p.len() as int);
    let is_marker = p.subrange(q, hi) == default_marker();
    let is_escape = q - 1 >= 0 && p.subrange(q - 1, hi) == default_escape();
    assert((is_marker && !is_escape) == unescaped_marker_at(p, q)) by {
        if is_marker {
            assert(p.subrange(q, hi).len() == 3);
        }
    }
    if ci - 1 > up && !unescaped_marker_at(p, q) {
        lemma_backward_finds_last(p, up, (ci - 1) as nat);
    }
}

/// How many whole frames fit in the first `len` characters.
pub open spec fn frames_within(messages: Seq<Seq<char>>, len: int) -> int
    decreases messages.len(),
{
    if messages.len() == 0 {
        0
    } else if escaped(messages[0]).len() + 3 <= len {
        1 + frames_within(messages.drop_first(), len - escaped(messages[0]).len() - 3)
    } else {
        0
    }
}

proof fn lemma_frames_within(messages: Seq<Seq<char>>, len: int)
    requires
        len >= 0,
    ensures
        0 <= frames_within(messages, len) <= messages.len(),
        frame_end(messages, frames_within(messages, len)) <= len,
        frames_within(messages, len) < messages.len() ==> frame_end(
            messages,
            frames_within(messages, len) + 1,
        ) > len,
        forall|j: int| 0 <= j <= messages.len() && frame_end(messages, j) <= len ==> j
            <= frames_within(messages, len),
    decreases messages.len(),
{
    assert(messages.take(0) =~= Seq::<Seq<char>>::empty());
    if messages.len() > 0 {
        let k = escaped(messages[0]).len() as int;
        let rest = messages.drop_first();
        lemma_frame_end_shift(messages, 0);
        assert(rest.take(0) =~= Seq::<Seq<char>>::empty());
        if k + 3 <= len {
            lemma_frames_within(rest, len - k - 3);
            let jr = frames_within(rest, len - k - 3);
            lemma_frame_end_shift(messages, jr);
            if jr < rest.len() {
                lemma_frame_end_shift(messages, jr + 1);
            }
            assert forall|j: int| 0 <= j <= messages.len() && frame_end(messages, j) <= len implies j
                <= frames_within(messages, len) by {
                if j >= 1 {
                    lemma_frame_end_shift(messages, j - 1);
                }
            }
        } else {
            assert forall|j: int| 0 <= j <= messages.len() && frame_end(messages, j) <= len implies j
                <= frames_within(messages, len) by {
                if j >= 1 {
                    lemma_frame_end_grows(messages, 1, j);
                }
            }
        }
    }
}

/// Every character is ASCII.
pub open spec fn is_ascii_text(s: Seq<char>) -> bool {
    vstd::utf8::is_ascii_chars(s)
}

proof fn lemma_escaped_ascii(m: Seq<char>)
    requires
        is_ascii_text(m),
    ensures
        is_ascii_text(escaped(m)),
    decreases m.len(),
{
    if m.len() > 0 {
        lemma_escaped_first(m);
        if starts_with_marker(m) {
            lemma_escaped_ascii(m.skip(3));
            let r = escaped(m.skip(3));
            assert forall|i: int| 0 <= i < escaped(m).len() implies '\0' <= #[trigger] escaped(
                m,
            )[i] <= '\u{7f}' by {
                if i >= 4 {
                    assert(escaped(m)[i] == r[i - 4]);
                }
            }
        } else {
            lemma_escaped_ascii(m.drop_first());
            let r = escaped(m.drop_first());
            assert forall|i: int| 0 <= i < escaped(m).len() implies '\0' <= #[trigger] escaped(
                m,
            )[i] <= '\u{7f}' by {
                if i >= 1 {
                    assert(escaped(m)[i] == r[i - 1]);
                }
            }
        }
    }
}

pub(crate) proof fn lemma_framed_ascii(messages: Seq<Seq<char>>)
    requires
        forall|i: int| 0 <= i < messages.len() ==> is_ascii_text(#[trigger] messages[i]),
    ensures
        is_ascii_text(framed(messages)),
    decreases messages.len(),
{
    if messages.len() > 0 {
        let m = messages[0];
        let rest = messages.drop_first();
        assert forall|i: int| 0 <= i < rest.len() implies is_ascii_text(#[trigger] rest[i]) by {
            assert(rest[i] == messages[i + 1]);
        }
        assert(is_ascii_text(messages[0]));
        lemma_framed_ascii(rest);
        lemma_escaped_ascii(m);
        let f = framed(messages);
        let e = escaped(m);
        assert forall|i: int| 0 <= i < f.len() implies '\0' <= #[trigger] f[i] <= '\u{7f}' by {
            if i < e.len() {
                assert(f[i] == e[i]);
            } else if i < e.len() + 3 {
                assert(f[i] == default_marker()[i - e.len()]);
            } else {
                assert(f[i] == framed(rest)[i - e.len() - 3]);
            }
        }
    }
}

proof fn lemma_ascii_prefix(s: Seq<char>, n: int)
    requires
        is_ascii_text(s),
        0 <= n <= s.len(),
    ensures
        is_ascii_text(s.take(n)),
        is_ascii_text(s.skip(n)),
        utf8_len(s.take(n)) == n,
        utf8_len(s.skip(n)) == s.len() - n,
{
    assert(is_ascii_text(s.take(n)));
    assert(is_ascii_text(s.skip(n)));
    vstd::utf8::is_ascii_chars_encode_utf8(s.take(n));
    vstd::utf8::is_ascii_chars_encode_utf8(s.skip(n));
}

/// In ASCII text, every byte offset up to the length is a character boundary.
pub(crate) proof fn lemma_chars_before_byte_ascii(s: Seq<char>, b: int)
    requires
        is_ascii_text(s),
        0 <= b <= s.len(),
    ensures
        crate::message_processing::chars_before_byte(s, b) == Some(b as nat),
    decreases s.len(),
{
    if b > 0 {
        assert(is_ascii_text(s.drop_first()));
        assert('\0' <= s[0] <= '\u{7f}');
        lemma_chars_before_byte_ascii(s.drop_first(), b - 1);
    }
}

/// A buffer still waiting for the rest of `messages`: the beginning of their
/// framed text, short of the end of the first frame.
pub open spec fn pending(buffer: Seq<char>, messages: Seq<Seq<char>>) -> bool {
    &&& buffer.len() <= framed(messages).len()
    &&& framed(messages).take(buffer.len() as int) == buffer
    &&& messages.len() > 0 ==> buffer.len() < frame_end(messages, 1)
    &&& messages.len() == 0 ==> buffer.len() == 0
}

/// A message that survives the trip through reads: ASCII and not ending with
/// a backslash.
pub open spec fn streamable(message: Seq<char>) -> bool {
    &&& is_ascii_text(message)
    &&& sendable(message)
}

/// In the beginning `p` of framed messages, the unescaped end markers that fit
/// are exactly the ends of frames.
proof fn lemma_prefix_unescaped(messages: Seq<Seq<char>>, p: Seq<char>)
    requires
        forall|i: int| 0 <= i < messages.len() ==> sendable(#[trigger] messages[i]),
        p.len() <= framed(messages).len(),
        framed(messages).take(p.len() as int) == p,
    ensures
        forall|q: int|
            0 <= q && q + 3 <= p.len() ==> (#[trigger] unescaped_marker_at(p, q) <==> exists|i: int|
                1 <= i <= messages.len() && q + 3 == #[trigger] frame_end(messages, i)),
{
    let f = framed(messages);
    assert forall|q: int| 0 <= q && q + 3 <= p.len() implies (#[trigger] unescaped_marker_at(p, q)
        <==> exists|i: int| 1 <= i <= messages.len() && q + 3 == #[trigger] frame_end(messages, i))
        by {
        assert(p.subrange(q, q + 3) =~= f.subrange(q, q + 3));
        if q >= 1 {
            assert(p.subrange(q - 1, q + 3) =~= f.subrange(q - 1, q + 3));
        }
        lemma_unescaped_in_framed(messages, q);
    }
}

/// The right-to-left search of a read over the beginning `p` of framed
/// messages, down to `up`, below the first frame end: it finds the start of
/// the end marker of the last complete frame, or nothing.
proof fn lemma_feed_scan(messages: Seq<Seq<char>>, p: Seq<char>, up: nat)
    requires
        forall|i: int| 0 <= i < messages.len() ==> sendable(#[trigger] messages[i]),
        p.len() <= framed(messages).len(),
        framed(messages).take(p.len() as int) == p,
        messages.len() > 0 ==> up + 3 <= frame_end(messages, 1),
    ensures
        ({
            let j = frames_within(messages, p.len() as int);
            let outcome = crate::message_processing::scan_right_to_left(
                p,
                p.len(),
                default_marker(),
                default_escape(),
                p.len(),
                up,
            );
            &&& j >= 1 ==> outcome == ScanOutcome::Found((frame_end(messages, j) - 3) as usize)
            &&& j == 0 ==> outcome == ScanOutcome::NotFound
        }),
{
    let l = p.len() as int;
    lemma_frames_within(messages, l);
    let j = frames_within(messages, l);
    let e_j = frame_end(messages, j);
    lemma_prefix_unescaped(messages, p);
    if j >= 1 {
        let q_star = e_j - 3;
        lemma_frame_end_grows(messages, 1, j);
        assert(unescaped_marker_at(p, q_star));
        assert forall|q: int| q_star < q <= l - 1 implies !#[trigger] unescaped_marker_at(p, q) by {
            if unescaped_marker_at(p, q) {
                let i = choose|i: int|
                    1 <= i <= messages.len() && q + 3 == #[trigger] frame_end(messages, i);
                if i <= j {
                    lemma_frame_end_grows(messages, i, j);
                }
            }
        }
        lemma_backward_finds_last(p, up, l as nat);
    } else {
        assert forall|q: int| 0 <= q <= l - 1 implies !#[trigger] unescaped_marker_at(p, q) by {
            if unescaped_marker_at(p, q) {
                let i = choose|i: int|
                    1 <= i <= messages.len() && q + 3 == #[trigger] frame_end(messages, i);
            }
        }
        if l >= 3 {
            lemma_backward_finds_last(p, up, l as nat);
        }
    }
}

/// What is left after the complete frames of `p` is again a pending buffer.
proof fn lemma_feed_rest(messages: Seq<Seq<char>>, p: Seq<char>)
    requires
        p.len() <= framed(messages).len(),
        framed(messages).take(p.len() as int) == p,
    ensures
        ({
            let j = frames_within(messages, p.len() as int);
            let rest = p.skip(frame_end(messages, j));
            &&& 0 <= j <= messages.len()
            &&& frame_end(messages, j) <= p.len()
            &&& pending(rest, messages.skip(j))
            &&& p.take(frame_end(messages, j)) == framed(messages.take(j))
        }),
{
    let l = p.len() as int;
    lemma_frames_within(messages, l);
    let j = frames_within(messages, l);
    let e_j = frame_end(messages, j);
    let f = framed(messages);
    lemma_framed_split(messages, j);
    let rest = p.skip(e_j);
    assert(framed(messages.skip(j)) =~= f.skip(e_j));
    assert(framed(messages.skip(j)).take(rest.len() as int) =~= rest);
    assert(p.take(e_j) =~= f.take(e_j));
    assert(f.take(e_j) =~= framed(messages.take(j)));
    if j < messages.len() {
        lemma_framed_split(messages.skip(j), 1);
        assert(messages.skip(j).take(1) =~= seq![messages[j]]);
        lemma_framed_one(messages[j]);
    }
}

/// One read: the buffer and the received text are the beginning of the framed
/// messages; the read delivers every message whose frame is complete and keeps
/// the rest, which is again a pending buffer.
#[verifier::spinoff_prover]
#[verifier::rlimit(40)]
proof fn lemma_feed_once(buffer: Seq<char>, received: Seq<char>, messages: Seq<Seq<char>>) -> (j:
    int)
    requires
        forall|i: int| 0 <= i < messages.len() ==> streamable(#[trigger] messages[i]),
        pending(buffer, messages),
        (buffer + received).len() <= framed(messages).len(),
        framed(messages).take((buffer + received).len() as int) == buffer + received,
        framed(messages).len() <= usize::MAX,
    ensures
        0 <= j <= messages.len(),
        frame_end(messages, j) <= (buffer + received).len(),
        spec_split_client_input(buffer, received, default_marker(), default_escape()) == Some(
            (messages.take(j), (buffer + received).skip(frame_end(messages, j))),
        ),
        pending((buffer + received).skip(frame_end(messages, j)), messages.skip(j)),
{
    let p = buffer + received;
    let l = p.len() as int;
    let f = framed(messages);
    assert forall|i: int| 0 <= i < messages.len() implies is_ascii_text(#[trigger] messages[i])
        && sendable(messages[i]) by {
        assert(streamable(messages[i]));
    }
    lemma_framed_ascii(messages);
    lemma_ascii_prefix(f, l);
    lemma_ascii_prefix(p, buffer.len() as int);
    assert(p.take(buffer.len() as int) =~= buffer);
    let up: nat = if buffer.len() >= 4 {
        (buffer.len() - 4) as nat
    } else {
        0
    };
    if messages.len() > 0 {
        lemma_framed_split(messages, 0);
        assert(messages.take(0) =~= Seq::<Seq<char>>::empty());
    }
    lemma_feed_scan(messages, p, up);
    lemma_feed_rest(messages, p);
    let j = frames_within(messages, l);
    let e_j = frame_end(messages, j);
    if j >= 1 {
        lemma_chars_before_byte_ascii(p, e_j);
        assert forall|i: int| 0 <= i < messages.take(j).len() implies sendable(
            #[trigger] messages.take(j)[i],
        ) by {
            assert(messages.take(j)[i] == messages[i]);
        }
        lemma_ascii_prefix(p, e_j);
        law_framed_messages_read_back(messages.take(j));
    } else {
        assert(messages.take(0) =~= Seq::<Seq<char>>::empty());
        assert(p.skip(0) =~= p);
    }
    j
}


/// The messages delivered by reading `chunks` one after another into a client
/// buffer that starts as `buffer`, and the buffer left at the end; `None` when
/// a read cannot be split.
pub open spec fn deliver_reads(buffer: Seq<char>, chunks: Seq<Seq<char>>) -> Option<
    (Seq<Seq<char>>, Seq<char>),
>
    decreases chunks.len(),
{
    if chunks.len() == 0 {
        Some((Seq::empty(), buffer))
    } else {
        match spec_split_client_input(buffer, chunks[0], default_marker(), default_escape()) {
            Some((ms, rest)) => match deliver_reads(rest, chunks.drop_first()) {
                Some((later, left)) => Some((ms + later, left)),
                None => None,
            },
            None => None,
        }
    }
}

proof fn lemma_deliver_reads(buffer: Seq<char>, chunks: Seq<Seq<char>>, messages: Seq<Seq<char>>)
    requires
        forall|i: int| 0 <= i < messages.len() ==> streamable(#[trigger] messages[i]),
        pending(buffer, messages),
        buffer + chunks.flatten() == framed(messages),
        framed(messages).len() <= usize::MAX,
    ensures
        deliver_reads(buffer, chunks) == Some((messages, Seq::<char>::empty())),
    decreases chunks.len(),
{
    if chunks.len() == 0 {
        assert(buffer + chunks.flatten() =~= buffer);
        if messages.len() > 0 {
            lemma_framed_split(messages, 1);
        }
        assert(messages =~= Seq::<Seq<char>>::empty());
        assert(buffer =~= Seq::<char>::empty());
    } else {
        let c = chunks[0];
        let tail = chunks.drop_first().flatten();
        assert(chunks.flatten() == c + tail);
        let p = buffer + c;
        assert(p + tail =~= framed(messages));
        assert(framed(messages).take(p.len() as int) =~= p);
        let j = lemma_feed_once(buffer, c, messages);
        let rest = p.skip(frame_end(messages, j));
        lemma_framed_split(messages, j);
        assert(framed(messages.take(j)) =~= p.take(frame_end(messages, j))) by {
            lemma_feed_rest(messages, p);
        }
        let e_j = frame_end(messages, j);
        assert(framed(messages.skip(j)) =~= framed(messages).skip(e_j));
        assert((p + tail).skip(e_j) =~= rest + tail);
        assert(rest + tail =~= framed(messages.skip(j)));
        assert forall|i: int| 0 <= i < messages.skip(j).len() implies streamable(
            #[trigger] messages.skip(j)[i],
        ) by {
            assert(messages.skip(j)[i] == messages[i + j]);
        }
        lemma_deliver_reads(rest, chunks.drop_first(), messages.skip(j));
        assert(messages.take(j) + messages.skip(j) =~= messages);
    }
}

/// Framed messages read in pieces of any sizes are delivered whole, each once
/// and in order, with nothing left buffered: a message whose frame a read
/// leaves incomplete is delivered by the read that completes it. Holds for
/// ASCII messages that do not end with a backslash, whose framed text fits in
/// memory.
pub proof fn law_reads_in_pieces_deliver_messages(messages: Seq<Seq<char>>, chunks: Seq<Seq<char>>)
    requires
        forall|i: int| 0 <= i < messages.len() ==> streamable(#[trigger] messages[i]),
        chunks.flatten() == framed(messages),
        framed(messages).len() <= usize::MAX,
    ensures
        deliver_reads(Seq::empty(), chunks) == Some((messages, Seq::<char>::empty())),
{
    if messages.len() > 0 {
        lemma_framed_split(messages, 0);
        lemma_framed_split(messages, 1);
        assert(messages.take(0) =~= Seq::<Seq<char>>::empty());
    }
    assert(framed(messages).take(0) =~= Seq::<char>::empty());
    assert(Seq::<char>::empty() + chunks.flatten() =~= chunks.flatten());
    lemma_deliver_reads(Seq::empty(), chunks, messages);
}


/// An end marker ends at character position `c` of `s`, and the escaped end
/// marker does not.
pub open spec fn marker_ends_at(s: Seq<char>, marker: Seq<char>, escape: Seq<char>, c: int) -> bool {
    &&& marker.len() <= c <= s.len()
    &&& s.subrange(c - marker.len(), c) == marker
    &&& !(escape.len() <= c && s.subrange(c - escape.len(), c) == escape)
}

/// `k` is where the left-to-right search over ASCII text should stop: the
/// first unescaped end marker ending at or after the clamped start begins at
/// `k`, and no position passed before it starts after the clamped `up_to`.
pub open spec fn first_marker_found(
    s: Seq<char>,
    marker: Seq<char>,
    escape: Seq<char>,
    start: nat,
    up_to: nat,
    k: int,
) -> bool {
    let e = marker.len() as int;
    let st = clamp_start(start, marker.len(), s.len()) as int;
    let up = min_int(up_to as int, s.len() as int);
    &&& st <= k + e <= s.len()
    &&& marker_ends_at(s, marker, escape, k + e)
    &&& forall|c: int| st <= c < k + e ==> !#[trigger] marker_ends_at(s, marker, escape, c)
    &&& (k + e == st || k - 1 <= up)
}

/// `k` is where the right-to-left search over ASCII text should stop: the
/// last unescaped end marker that fits before the clamped start begins at
/// `k`, at or above the clamped `up_to`.
pub open spec fn last_marker_found(
    s: Seq<char>,
    marker: Seq<char>,
    escape: Seq<char>,
    start: nat,
    up_to: nat,
    k: int,
) -> bool {
    let e = marker.len() as int;
    let st = clamp_start(start, marker.len(), s.len()) as int;
    let lo = min_int(up_to as int, st - 1);
    &&& lo <= k
    &&& k + e <= st
    &&& marker_ends_at(s, marker, escape, k + e)
    &&& forall|q: int| k < q && q + e <= st ==> !#[trigger] marker_ends_at(s, marker, escape, q + e)
}

/// The windows the search compares hold an unescaped end marker exactly when
/// one ends there.
proof fn lemma_windows_mark_end(s: Seq<char>, marker: Seq<char>, escape: Seq<char>, c: int)
    requires
        0 <= c <= s.len(),
    ensures
        (window(s, c, marker.len() as int) == marker && window(s, c, escape.len() as int)
            != escape) <== marker_ends_at(s, marker, escape, c),
        (window(s, c, marker.len() as int) == marker && window(s, c, escape.len() as int)
            != escape) ==> marker_ends_at(s, marker, escape, c),
{
    let wm = window(s, c, marker.len() as int);
    let wx = window(s, c, escape.len() as int);
    if wm == marker {
        assert(wm.len() == marker.len());
    }
    if wx == escape {
        assert(wx.len() == escape.len());
    }
}

/// Over ASCII text, each step of the left-to-right search finds the first
/// unescaped end marker ending from the next candidate position on, unless it
/// gives up first.
proof fn lemma_forward_scan_ascii(
    s: Seq<char>,
    marker: Seq<char>,
    escape: Seq<char>,
    first: nat,
    st: nat,
    up: nat,
    ci: nat,
)
    requires
        1 <= marker.len() <= escape.len(),
        marker.len() <= st <= s.len(),
        s.len() <= usize::MAX,
        first <= st,
        ci <= s.len(),
    ensures
        ({
            let r = forward_scan(s, s.len(), marker, escape, first, st, up, ci);
            let from = max_int(ci + 1 as int, st as int);
            let e = marker.len() as int;
            &&& r != ScanOutcome::Fault
            &&& forall|k: usize|
                r == ScanOutcome::Found(k) <==> {
                    &&& from <= k + e <= s.len()
                    &&& marker_ends_at(s, marker, escape, k + e)
                    &&& forall|c: int|
                        from <= c < k + e ==> !#[trigger] marker_ends_at(s, marker, escape, c)
                    &&& (k + e == from || k - 1 <= up)
                }
        }),
    decreases s.len() - ci,
{
    let e = marker.len() as int;
    if ci < s.len() {
        let c = ci + 1;
        if c < first || c < st {
            lemma_forward_scan_ascii(s, marker, escape, first, st, up, c);
        } else {
            lemma_windows_mark_end(s, marker, escape, c as int);
            let r = forward_scan(s, s.len(), marker, escape, first, st, up, ci);
            if marker_ends_at(s, marker, escape, c as int) {
                assert forall|k: usize|
                    {
                        &&& c <= k + e <= s.len()
                        &&& marker_ends_at(s, marker, escape, k + e)
                        &&& forall|c2: int|
                            c <= c2 < k + e ==> !#[trigger] marker_ends_at(s, marker, escape, c2)
                        &&& (k + e == c || k - 1 <= up)
                    } implies r == ScanOutcome::Found(k) by {
                    if k + e > c {
                        assert(marker_ends_at(s, marker, escape, c as int));
                    }
                }
            } else if c - e > up {
            } else {
                lemma_forward_scan_ascii(s, marker, escape, first, st, up, c);
                let r2 = forward_scan(s, s.len(), marker, escape, first, st, up, c);
                assert(r == r2);
                assert forall|k: usize|
                    {
                        &&& c <= k + e <= s.len()
                        &&& marker_ends_at(s, marker, escape, k + e)
                        &&& forall|c2: int|
                            c <= c2 < k + e ==> !#[trigger] marker_ends_at(s, marker, escape, c2)
                        &&& (k + e == c || k - 1 <= up)
                    } implies r == ScanOutcome::Found(k) by {
                    assert forall|c2: int|
                        c + 1 <= c2 < k + e implies !#[trigger] marker_ends_at(
                        s,
                        marker,
                        escape,
                        c2,
                    ) by {}
                }
                assert forall|k: usize| r == ScanOutcome::Found(k) implies {
                    &&& c <= k + e <= s.len()
                    &&& marker_ends_at(s, marker, escape, k + e)
                    &&& forall|c2: int|
                        c <= c2 < k + e ==> !#[trigger] marker_ends_at(s, marker, escape, c2)
                    &&& (k + e == c || k - 1 <= up)
                } by {
                    assert forall|c2: int| c <= c2 < k + e implies !#[trigger] marker_ends_at(
                        s,
                        marker,
                        escape,
                        c2,
                    ) by {
                        if c2 > c {
                            assert(c + 1 <= c2 < k + e);
                        }
                    }
                }
            }
        }
    }
}

/// On ASCII text that fits in memory, the left-to-right search for the end of
/// a message finds the first end marker, ending at or after the start position
/// (clamped between the marker length and the text length), that is not part
/// of an escaped end marker, provided no position it passed on the way started
/// after `up_to` (clamped to the text length); otherwise it finds nothing.
pub proof fn law_forward_search_finds_first_marker(
    s: Seq<char>,
    marker: Seq<char>,
    escape: Seq<char>,
    start: nat,
    up_to: nat,
)
    requires
        vstd::utf8::is_ascii_chars(s),
        s.len() <= usize::MAX,
        1 <= marker.len() <= escape.len(),
    ensures
        ({
            let r = spec_find_message_end_bound(s, start, true, up_to, marker, escape);
            let e = marker.len() as int;
            let st = clamp_start(start, marker.len(), s.len()) as int;
            let up = min_int(up_to as int, s.len() as int);
            &&& r != ScanOutcome::Fault
            &&& forall|k: usize|
                r == ScanOutcome::Found(k) <==> {
                    &&& st <= k + e <= s.len()
                    &&& marker_ends_at(s, marker, escape, k + e)
                    &&& forall|c: int|
                        st <= c < k + e ==> !#[trigger] marker_ends_at(s, marker, escape, c)
                    &&& (k + e == st || k - 1 <= up)
                }
        }),
{
    vstd::utf8::is_ascii_chars_encode_utf8(s);
    assert(utf8_len(s) == s.len());
    let l = s.len();
    let e = marker.len();
    if l >= e {
        let st = clamp_start(start, e, l);
        let up: nat = if up_to < l {
            up_to
        } else {
            l
        };
        let first: nat = if st >= escape.len() {
            (st - escape.len()) as nat
        } else {
            0
        };
        assert(scan_left_to_right(s, l, marker, escape, start, up_to) == forward_scan(
            s,
            l,
            marker,
            escape,
            first,
            st,
            up,
            0,
        ));
        lemma_forward_scan_ascii(s, marker, escape, first, st, up, 0);
    }
}

/// Over ASCII text, each step of the right-to-left search finds the last
/// unescaped end marker starting at or below the current position, unless it
/// gives up first.
proof fn lemma_backward_scan_ascii(
    s: Seq<char>,
    marker: Seq<char>,
    escape: Seq<char>,
    st: nat,
    up: nat,
    ci: nat,
)
    requires
        1 <= marker.len() <= escape.len(),
        marker.len() <= st <= s.len(),
        s.len() <= usize::MAX,
        1 <= ci <= st,
    ensures
        ({
            let r = backward_scan(s, 0, marker, escape, st, up, ci);
            let lo = min_int(up as int, ci - 1);
            let e = marker.len() as int;
            &&& r != ScanOutcome::Fault
            &&& forall|k: usize|
                r == ScanOutcome::Found(k) <==> {
                    &&& lo <= k <= ci - 1
                    &&& k + e <= st
                    &&& marker_ends_at(s, marker, escape, k + e)
                    &&& forall|q: int|
                        k < q <= ci - 1 && q + e <= st ==> !#[trigger] marker_ends_at(
                            s,
                            marker,
                            escape,
                            q + e,
                        )
                }
        }),
    decreases ci,
{
    let e = marker.len() as int;
    let q = ci - 1;
    let hi = min_int(q + e, st as int);
    let is_marker = s.subrange(q, hi) == marker;
    let is_escape = q - (escape.len() - marker.len()) >= 0 && s.subrange(
        q - (escape.len() - marker.len()),
        hi,
    ) == escape;
    assert((is_marker && !is_escape) == (q + e <= st && marker_ends_at(s, marker, escape, q + e)))
        by {
        if is_marker {
            assert(s.subrange(q, hi).len() == e);
        }
        if is_escape {
            assert(s.subrange(q - (escape.len() - marker.len()), hi).len() == escape.len());
        }
    }
    let r = backward_scan(s, 0, marker, escape, st, up, ci);
    if is_marker && !is_escape {
        assert forall|k: usize|
            {
                &&& min_int(up as int, ci - 1) <= k <= ci - 1
                &&& k + e <= st
                &&& marker_ends_at(s, marker, escape, k + e)
                &&& forall|q2: int|
                    k < q2 <= ci - 1 && q2 + e <= st ==> !#[trigger] marker_ends_at(
                        s,
                        marker,
                        escape,
                        q2 + e,
                    )
            } implies r == ScanOutcome::Found(k) by {
            if k < q {
                assert(marker_ends_at(s, marker, escape, q + e));
            }
        }
    } else if q <= up {
    } else {
        lemma_backward_scan_ascii(s, marker, escape, st, up, (ci - 1) as nat);
    }
}

/// On ASCII text that fits in memory, the right-to-left search for the end of
/// a message finds the last end marker that fits before the start position
/// (clamped between the marker length and the text length) and is not part of
/// an escaped end marker, among the positions from there down to `up_to`;
/// otherwise it finds nothing.
pub proof fn law_backward_search_finds_last_marker(
    s: Seq<char>,
    marker: Seq<char>,
    escape: Seq<char>,
    start: nat,
    up_to: nat,
)
    requires
        vstd::utf8::is_ascii_chars(s),
        s.len() <= usize::MAX,
        1 <= marker.len() <= escape.len(),
    ensures
        ({
            let r = spec_find_message_end_bound(s, start, false, up_to, marker, escape);
            let e = marker.len() as int;
            let st = clamp_start(start, marker.len(), s.len()) as int;
            let lo = min_int(up_to as int, st - 1);
            &&& r != ScanOutcome::Fault
            &&& forall|k: usize|
                r == ScanOutcome::Found(k) <==> {
                    &&& lo <= k
                    &&& k + e <= st
                    &&& marker_ends_at(s, marker, escape, k + e)
                    &&& forall|q: int|
                        k < q && q + e <= st ==> !#[trigger] marker_ends_at(
                            s,
                            marker,
                            escape,
                            q + e,
                        )
                }
        }),
{
    vstd::utf8::is_ascii_chars_encode_utf8(s);
    assert(utf8_len(s) == s.len());
    let l = s.len();
    let e = marker.len();
    if l >= e {
        let st = clamp_start(start, e, l);
        let up: nat = if up_to < l {
            up_to
        } else {
            l
        };
        lemma_backward_scan_ascii(s, marker, escape, st, up, st);
    }
}


/// The queue after `values` are inserted one after another, all in the same
/// direction, into a queue bounded by `capacity`.
pub open spec fn insert_all_on_queue<T>(
    queue: Seq<T>,
    capacity: nat,
    values: Seq<T>,
    front_to_back_order: bool,
) -> Seq<T>
    decreases values.len(),
{
    if values.len() == 0 {
        queue
    } else {
        spec_insert_on_queue(
            insert_all_on_queue(queue, capacity, values.drop_last(), front_to_back_order),
            capacity,
            values.last(),
            front_to_back_order,
        )
    }
}

/// The last `capacity` of `values` (all of them when there are fewer).
pub open spec fn last_values<T>(values: Seq<T>, capacity: nat) -> Seq<T> {
    if values.len() <= capacity {
        values
    } else {
        values.skip(values.len() - capacity)
    }
}

/// A bounded queue that starts empty and takes values one after another holds
/// a sliding window: the last `capacity` values, oldest first when they are
/// inserted at the back, newest first when they are inserted at the front.
pub proof fn law_queue_keeps_last_values<T>(capacity: nat, values: Seq<T>, front_to_back_order: bool)
    requires
        capacity >= 1,
    ensures
        insert_all_on_queue(Seq::empty(), capacity, values, front_to_back_order) == if front_to_back_order {
            last_values(values, capacity)
        } else {
            last_values(values, capacity).reverse()
        },
    decreases values.len(),
{
    if values.len() > 0 {
        let prev = values.drop_last();
        let v = values.last();
        law_queue_keeps_last_values(capacity, prev, front_to_back_order);
        let w = last_values(prev, capacity);
        let w2 = last_values(values, capacity);
        if prev.len() >= capacity {
            assert(w.len() == capacity);
            assert(w.drop_first().push(v) =~= w2);
            if !front_to_back_order {
                assert(w.reverse().drop_last() =~= w.drop_first().reverse());
                assert(seq![v] + w.drop_first().reverse() =~= w2.reverse());
            }
        } else {
            assert(w =~= prev);
            assert(w.push(v) =~= w2);
            if !front_to_back_order {
                assert(seq![v] + w.reverse() =~= w2.reverse());
            }
        }
    }
}

/// Raw messages, each followed by the end marker.
pub open spec fn joined(raws: Seq<Seq<char>>, marker: Seq<char>) -> Seq<char>
    decreases raws.len(),
{
    if raws.len() == 0 {
        Seq::empty()
    } else {
        raws[0] + marker + joined(raws.drop_first(), marker)
    }
}

/// Where an unescaped end marker ends at `c`, there is a first one from `lo`
/// on.
proof fn lemma_first_marker_end(
    t: Seq<char>,
    marker: Seq<char>,
    escape: Seq<char>,
    lo: int,
    c: int,
) -> (c0: int)
    requires
        lo <= c,
        marker_ends_at(t, marker, escape, c),
    ensures
        lo <= c0 <= c,
        marker_ends_at(t, marker, escape, c0),
        forall|c1: int| lo <= c1 < c0 ==> !#[trigger] marker_ends_at(t, marker, escape, c1),
    decreases c - lo,
{
    if marker_ends_at(t, marker, escape, lo) {
        lo
    } else {
        lemma_first_marker_end(t, marker, escape, lo + 1, c)
    }
}

/// Cutting messages out of ASCII text always completes, and removes only
/// whole messages with their end markers: the text is raw messages, each
/// followed by an end marker, and then what is left over; each message
/// delivered is its raw message with escaped end markers turned back into end
/// markers; and what is left holds no end marker that is not part of an
/// escaped one (from the start position on).
#[verifier::spinoff_prover]
#[verifier::rlimit(30)]
pub proof fn law_messages_cut_whole(
    t: Seq<char>,
    start: nat,
    marker: Seq<char>,
    escape: Seq<char>,
) -> (raws: Seq<Seq<char>>)
    requires
        vstd::utf8::is_ascii_chars(t),
        t.len() <= usize::MAX,
        1 <= marker.len() <= escape.len(),
    ensures
        spec_process_messages(t, start, marker, escape) matches Some((ms, rest)) && {
            &&& raws.len() == ms.len()
            &&& forall|i: int| 0 <= i < ms.len() ==> ms[i] == replace_all(raws[i], escape, marker)
            &&& t == joined(raws, marker) + rest
            &&& forall|c: int|
                max_int(start as int, marker.len() as int) <= c <= rest.len()
                    ==> !#[trigger] marker_ends_at(rest, marker, escape, c)
        },
    decreases t.len(),
{
    vstd::utf8::is_ascii_chars_encode_utf8(t);
    let l = t.len();
    let e = marker.len() as int;
    assert(utf8_len(t) == l);
    law_forward_search_finds_first_marker(t, marker, escape, start, l);
    match scan_left_to_right(t, l, marker, escape, start, l) {
        ScanOutcome::Found(k) => {
            assert(spec_find_message_end_bound(t, start, true, l, marker, escape)
                == ScanOutcome::Found(k));
            assert(k + e <= l);
            assert(marker_ends_at(t, marker, escape, k + e));
            let head = t.subrange(0, k as int);
            let rest = t.subrange(k + e, l as int);
            assert(is_bmp(head));
            assert(is_bmp(rest));
            lemma_bmp_roundtrip(head);
            lemma_bmp_roundtrip(rest);
            assert(spec_substring_utf16(t, 0, k as nat) == Some(head));
            assert(spec_substring_utf16(t, (k + e) as nat, l) == Some(rest));
            assert(vstd::utf8::is_ascii_chars(rest));
            let raws_rest = law_messages_cut_whole(rest, 0, marker, escape);
            let (ms_rest, left) = spec_process_messages(rest, 0, marker, escape)->Some_0;
            let raws = seq![head] + raws_rest;
            assert(raws.drop_first() =~= raws_rest);
            assert(t.subrange(k as int, k + e) == marker);
            assert(t =~= head + marker + rest);
            assert(joined(raws, marker) == head + marker + joined(raws_rest, marker));
            assert(t =~= joined(raws, marker) + left);
            let ms = seq![replace_all(head, escape, marker)] + ms_rest;
            assert forall|i: int| 0 <= i < ms.len() implies ms[i] == replace_all(
                raws[i],
                escape,
                marker,
            ) by {
                if i > 0 {
                    assert(ms[i] == ms_rest[i - 1]);
                    assert(raws[i] == raws_rest[i - 1]);
                }
            }
            raws
        },
        _ => {
            assert(utf8_len(t) == l);
            assert forall|c: int|
                max_int(start as int, marker.len() as int) <= c <= t.len() implies !#[trigger] marker_ends_at(
                t,
                marker,
                escape,
                c,
            ) by {
                if marker_ends_at(t, marker, escape, c) {
                    let st = clamp_start(start, marker.len(), l) as int;
                    let c0 = lemma_first_marker_end(t, marker, escape, st, c);
                    let k = (c0 - e) as usize;
                    assert(k + e == c0);
                    assert(scan_left_to_right(t, l, marker, escape, start, l)
                        == ScanOutcome::Found(k));
                }
            }
            Seq::empty()
        },
    }
}


/// Raw messages each followed by the end marker end with the end marker.
proof fn lemma_joined_ends_with_marker(raws: Seq<Seq<char>>, marker: Seq<char>)
    requires
        raws.len() > 0,
    ensures
        joined(raws, marker).len() >= marker.len(),
        joined(raws, marker).subrange(
            joined(raws, marker).len() - marker.len(),
            joined(raws, marker).len() as int,
        ) == marker,
    decreases raws.len(),
{
    let j = joined(raws, marker);
    let tail = joined(raws.drop_first(), marker);
    if raws.len() == 1 {
        assert(tail == Seq::<char>::empty());
        assert(j.subrange(j.len() - marker.len(), j.len() as int) =~= marker);
    } else {
        lemma_joined_ends_with_marker(raws.drop_first(), marker);
        assert(j.subrange(j.len() - marker.len(), j.len() as int) =~= tail.subrange(
            tail.len() - marker.len(),
            tail.len() as int,
        ));
    }
}

/// An unescaped end marker ending at `c` is still one in the text cut off at
/// `c`.
proof fn lemma_marker_end_in_prefix(s: Seq<char>, marker: Seq<char>, escape: Seq<char>, c: int)
    requires
        marker_ends_at(s, marker, escape, c),
    ensures
        marker_ends_at(s.take(c), marker, escape, c),
{
    let p = s.take(c);
    assert(p.subrange(c - marker.len(), c) =~= s.subrange(c - marker.len(), c));
    if escape.len() <= c {
        assert(p.subrange(c - escape.len(), c) =~= s.subrange(c - escape.len(), c));
    }
}

/// No proper end of the end marker is also its beginning, so two end
/// markers never overlap (`EOF` is such a marker; `AA` is not).
pub open spec fn marker_never_overlaps(marker: Seq<char>) -> bool {
    forall|d: int| 0 < d < marker.len() ==> #[trigger] marker.skip(d) != marker.take(marker.len() - d)
}

/// No character of the end marker occurs in the escaped end marker before its
/// last `marker.len()` characters (`\EOF` for `EOF`: the backslash), so an
/// escaped end marker never reaches back into a preceding end marker.
pub open spec fn escape_lead_avoids_marker(marker: Seq<char>, escape: Seq<char>) -> bool {
    forall|i: int, j: int|
        0 <= i < escape.len() - marker.len() && 0 <= j < marker.len() ==> #[trigger] escape[i]
            != #[trigger] marker[j]
}

/// An endmark for which a split of received text keeps every character and
/// leaves no end marker buffered: well formed, with an end marker that never
/// overlaps itself, and an escape that never reaches back into a preceding
/// end marker.
pub open spec fn splits_cleanly(marker: Seq<char>, escape: Seq<char>) -> bool {
    &&& crate::message_processing::endmark_wf(marker, escape)
    &&& marker_never_overlaps(marker)
    &&& escape_lead_avoids_marker(marker, escape)
}

/// The default endmark splits cleanly.
pub proof fn lemma_default_splits_cleanly()
    ensures
        splits_cleanly(default_marker(), default_escape()),
{
    let m = default_marker();
    let x = default_escape();
    assert forall|d: int| 0 < d < m.len() implies #[trigger] m.skip(d) != m.take(m.len() - d) by {
        assert(m.skip(d)[0] == m[d]);
        assert(m.take(m.len() - d)[0] == m[0]);
    }
    assert(vstd::utf8::is_ascii_chars(m));
    assert(vstd::utf8::is_ascii_chars(x));
}

/// When raw messages and their end markers are followed by a tail, the whole
/// text ends with an unescaped end marker that never overlaps itself, and the
/// tail holds no unescaped end marker, the tail is empty.
proof fn lemma_nothing_left_after_last_marker(
    head: Seq<char>,
    raws: Seq<Seq<char>>,
    left: Seq<char>,
    marker: Seq<char>,
    escape: Seq<char>,
)
    requires
        1 <= marker.len() <= escape.len(),
        marker_never_overlaps(marker),
        head == joined(raws, marker) + left,
        marker_ends_at(head, marker, escape, head.len() as int),
        forall|c: int|
            marker.len() <= c <= left.len() ==> !#[trigger] marker_ends_at(
                left,
                marker,
                escape,
                c,
            ),
    ensures
        left.len() == 0,
{
    let e = marker.len() as int;
    let xl = escape.len() as int;
    let c = head.len() as int;
    let jl = joined(raws, marker).len() as int;
    if left.len() >= e {
        assert(left.subrange(left.len() - e, left.len() as int) =~= head.subrange(c - e, c));
        if left.len() >= xl {
            assert(left.subrange(left.len() - xl, left.len() as int) =~= head.subrange(c - xl, c));
        }
        assert(marker_ends_at(left, marker, escape, left.len() as int));
    } else if left.len() > 0 {
        if raws.len() == 0 {
            assert(joined(raws, marker) == Seq::<char>::empty());
            assert(left =~= head);
        } else {
            let d = left.len() as int;
            lemma_joined_ends_with_marker(raws, marker);
            assert(head.subrange(jl - e, jl) =~= joined(raws, marker).subrange(jl - e, jl));
            let hm = head.subrange(jl - e, jl);
            let tm = head.subrange(c - e, c);
            assert(hm == marker && tm == marker);
            assert(marker.skip(d) =~= marker.take(e - d)) by {
                assert forall|i: int| 0 <= i < e - d implies marker.skip(d)[i] == marker.take(
                    e - d,
                )[i] by {
                    assert(hm[d + i] == head[jl - e + d + i]);
                    assert(tm[i] == head[c - e + i]);
                }
            }
        }
    }
}

/// Splitting a client's buffer and newly received ASCII text loses no
/// character, for an endmark that splits cleanly (the default one does): the
/// buffer followed by the received text is raw messages, each followed by an
/// end marker, and then what stays buffered; each message delivered is its raw
/// message with escaped end markers turned back into end markers.
#[verifier::spinoff_prover]
pub proof fn law_split_loses_nothing(
    buffer: Seq<char>,
    received: Seq<char>,
    marker: Seq<char>,
    escape: Seq<char>,
) -> (raws: Seq<Seq<char>>)
    requires
        vstd::utf8::is_ascii_chars(buffer + received),
        (buffer + received).len() <= usize::MAX,
        splits_cleanly(marker, escape),
    ensures
        spec_split_client_input(buffer, received, marker, escape) matches Some((ms, rest)) && {
            &&& raws.len() == ms.len()
            &&& forall|i: int| 0 <= i < ms.len() ==> ms[i] == replace_all(raws[i], escape, marker)
            &&& buffer + received == joined(raws, marker) + rest
        },
{
    let input = buffer + received;
    let m = marker;
    let x = escape;
    let e = m.len() as int;
    let l = input.len();
    vstd::utf8::is_ascii_chars_encode_utf8(input);
    assert(vstd::utf8::is_ascii_chars(buffer)) by {
        assert forall|i: int| 0 <= i < buffer.len() implies '\0' <= #[trigger] buffer[i]
            <= '\u{7f}' by {
            assert(buffer[i] == input[i]);
        }
    }
    vstd::utf8::is_ascii_chars_encode_utf8(buffer);
    let prev = utf8_len(buffer);
    let up_to: nat = if prev >= m.len() + 1 {
        (prev - (m.len() + 1)) as nat
    } else {
        0
    };
    law_backward_search_finds_last_marker(input, m, x, l, up_to);
    let r = spec_find_message_end_bound(input, l, false, up_to, m, x);
    assert(scan_right_to_left(input, utf8_len(input), m, x, l, up_to) == r);
    match r {
        ScanOutcome::Found(q) => {
            assert(r == ScanOutcome::Found(q));
            let c = q + e;
            assert(l >= e);
            assert(clamp_start(l, m.len(), l) == l);
            assert(c <= l);
            assert(marker_ends_at(input, m, x, c));
            lemma_chars_before_byte_ascii(input, c);
            let head = input.take(c);
            assert(vstd::utf8::is_ascii_chars(head));
            let raws = law_messages_cut_whole(head, 0, m, x);
            let (ms, left) = spec_process_messages(head, 0, m, x)->Some_0;
            lemma_marker_end_in_prefix(input, m, x, c);
            assert(max_int(0, e) == e);
            lemma_nothing_left_after_last_marker(head, raws, left, m, x);
            assert(joined(raws, m) + left =~= joined(raws, m));
            assert(input =~= head + input.skip(c));
            raws
        },
        _ => {
            assert(joined(Seq::<Seq<char>>::empty(), m) + input =~= input);
            Seq::empty()
        },
    }
}

/// Where an unescaped end marker ends at `c`, there is a last one up to `hi`.
proof fn lemma_last_marker_end(
    t: Seq<char>,
    marker: Seq<char>,
    escape: Seq<char>,
    c: int,
    hi: int,
) -> (c1: int)
    requires
        c <= hi,
        marker_ends_at(t, marker, escape, c),
    ensures
        c <= c1 <= hi,
        marker_ends_at(t, marker, escape, c1),
        forall|c2: int| c1 < c2 <= hi ==> !#[trigger] marker_ends_at(t, marker, escape, c2),
    decreases hi - c,
{
    if marker_ends_at(t, marker, escape, hi) {
        hi
    } else {
        lemma_last_marker_end(t, marker, escape, c, hi - 1)
    }
}

/// A client's buffer that holds no unescaped end marker still holds none
/// after ASCII text is received into it and split, for an endmark that splits
/// cleanly (the default one does): every complete message has left it.
#[verifier::spinoff_prover]
#[verifier::rlimit(30)]
pub proof fn law_split_leaves_no_marker(
    buffer: Seq<char>,
    received: Seq<char>,
    marker: Seq<char>,
    escape: Seq<char>,
)
    requires
        vstd::utf8::is_ascii_chars(buffer + received),
        (buffer + received).len() <= usize::MAX,
        splits_cleanly(marker, escape),
        forall|c: int| !#[trigger] marker_ends_at(buffer, marker, escape, c),
    ensures
        spec_split_client_input(buffer, received, marker, escape) matches Some((ms, rest))
            && forall|c: int| !#[trigger] marker_ends_at(rest, marker, escape, c),
{
    let input = buffer + received;
    let m = marker;
    let x = escape;
    let e = m.len() as int;
    let xl = x.len() as int;
    let l = input.len();
    law_split_loses_nothing(buffer, received, m, x);
    vstd::utf8::is_ascii_chars_encode_utf8(input);
    assert(vstd::utf8::is_ascii_chars(buffer)) by {
        assert forall|i: int| 0 <= i < buffer.len() implies '\0' <= #[trigger] buffer[i]
            <= '\u{7f}' by {
            assert(buffer[i] == input[i]);
        }
    }
    vstd::utf8::is_ascii_chars_encode_utf8(buffer);
    let prev = utf8_len(buffer);
    let up_to: nat = if prev >= m.len() + 1 {
        (prev - (m.len() + 1)) as nat
    } else {
        0
    };
    law_backward_search_finds_last_marker(input, m, x, l, up_to);
    let r = spec_find_message_end_bound(input, l, false, up_to, m, x);
    assert(scan_right_to_left(input, utf8_len(input), m, x, l, up_to) == r);
    let c0: int = match r {
        ScanOutcome::Found(q) => q + e,
        _ => 0,
    };
    if let ScanOutcome::Found(q) = r {
        assert(r == ScanOutcome::Found(q));
        assert(l >= e);
        assert(clamp_start(l, m.len(), l) == l);
        assert(marker_ends_at(input, m, x, c0));
        lemma_chars_before_byte_ascii(input, c0);
    }
    let rest = input.skip(c0);
    assert(spec_split_client_input(buffer, received, m, x)->Some_0.1 == rest);
    assert forall|c: int| !#[trigger] marker_ends_at(rest, m, x, c) by {
        if marker_ends_at(rest, m, x, c) {
            let cc = c0 + c;
            assert(input.subrange(cc - e, cc) =~= rest.subrange(c - e, c));
            if c >= xl {
                assert(input.subrange(cc - xl, cc) =~= rest.subrange(c - xl, c));
            } else if c0 > 0 && cc >= xl {
                // The window of an escape would reach back into the end marker
                // just before `rest`, whose last character no escape holds there.
                let w = input.subrange(cc - xl, cc);
                assert(w[xl - c - 1] == input[c0 - 1]);
                assert(input.subrange(c0 - e, c0)[e - 1] == input[c0 - 1]);
                assert(xl - c - 1 < xl - e);
                if w == x {
                    assert(x[xl - c - 1] == m[e - 1]);
                }
            }
            assert(marker_ends_at(input, m, x, cc));
            match r {
                ScanOutcome::Found(q) => {
                    let k = cc - e;
                    assert(k + e == cc);
                    assert(marker_ends_at(input, m, x, k + e));
                    assert(q < k && k + e <= clamp_start(l, m.len(), l));
                },
                _ => {
                    let k = cc - e;
                    if k >= min_int(up_to as int, l - 1) {
                        let c1 = lemma_last_marker_end(input, m, x, cc, l as int);
                        assert(clamp_start(l, m.len(), l) == l);
                        let k1 = (c1 - e) as usize;
                        assert(k1 + e == c1);
                        assert(forall|q2: int|
                            k1 < q2 && q2 + e <= l ==> !#[trigger] marker_ends_at(
                                input,
                                m,
                                x,
                                q2 + e,
                            ));
                        assert(r == ScanOutcome::Found(k1));
                    } else {
                        assert(cc <= prev);
                        assert(buffer.subrange(cc - e, cc) =~= input.subrange(cc - e, cc));
                        if cc >= xl {
                            assert(buffer.subrange(cc - xl, cc) =~= input.subrange(cc - xl, cc));
                        }
                        assert(marker_ends_at(buffer, m, x, cc));
                    }
                },
            }
        }
    }
}

/// One more raw message adds it and an end marker at the end.
proof fn lemma_joined_push(raws: Seq<Seq<char>>, raw: Seq<char>, marker: Seq<char>)
    ensures
        joined(raws.push(raw), marker) == joined(raws, marker) + raw + marker,
    decreases raws.len(),
{
    if raws.len() == 0 {
        assert(raws.push(raw).drop_first() =~= Seq::<Seq<char>>::empty());
        assert(raws.push(raw)[0] == raw);
        assert(joined(Seq::<Seq<char>>::empty(), marker) == Seq::<char>::empty());
        assert(joined(raws, marker) == Seq::<char>::empty());
        assert(joined(raws.push(raw), marker) =~= joined(raws, marker) + raw + marker);
    } else {
        lemma_joined_push(raws.drop_first(), raw, marker);
        assert(raws.push(raw).drop_first() =~= raws.drop_first().push(raw));
        assert(raws.push(raw)[0] == raws[0]);
        assert(joined(raws.push(raw), marker) =~= joined(raws, marker) + raw + marker);
    }
}

/// Cutting messages out of ASCII text one at a time, however early it stops,
/// removes only whole messages with their end markers: after `n` cuts the text
/// is `n` raw messages, each followed by an end marker, and then what is left;
/// each message cut is its raw message with escaped end markers turned back
/// into end markers.
pub proof fn law_cuts_remove_whole_messages(
    s: Seq<char>,
    start: nat,
    marker: Seq<char>,
    escape: Seq<char>,
    n: nat,
) -> (raws: Seq<Seq<char>>)
    requires
        vstd::utf8::is_ascii_chars(s),
        s.len() <= usize::MAX,
        1 <= marker.len() <= escape.len(),
    ensures
        spec_cut_messages(s, start, marker, escape, n) matches Some((ms, rest)) ==> {
            &&& raws.len() == ms.len()
            &&& forall|i: int| 0 <= i < ms.len() ==> ms[i] == replace_all(raws[i], escape, marker)
            &&& s == joined(raws, marker) + rest
        },
    decreases n,
{
    if n == 0 {
        assert(joined(Seq::<Seq<char>>::empty(), marker) + s =~= s);
        Seq::empty()
    } else {
        let raws0 = law_cuts_remove_whole_messages(s, start, marker, escape, (n - 1) as nat);
        match spec_cut_messages(s, start, marker, escape, (n - 1) as nat) {
            Some((ms0, r)) => {
                let jl = joined(raws0, marker).len() as int;
                assert(vstd::utf8::is_ascii_chars(r)) by {
                    assert forall|i: int| 0 <= i < r.len() implies '\0' <= #[trigger] r[i]
                        <= '\u{7f}' by {
                        assert(r[i] == s[jl + i]);
                    }
                }
                let st: nat = if n == 1 {
                    start
                } else {
                    0
                };
                let l = r.len();
                vstd::utf8::is_ascii_chars_encode_utf8(r);
                assert(utf8_len(r) == l);
                law_forward_search_finds_first_marker(r, marker, escape, st, l);
                let e = marker.len() as int;
                match scan_left_to_right(r, l, marker, escape, st, l) {
                    ScanOutcome::Found(k) => {
                        assert(spec_find_message_end_bound(r, st, true, l, marker, escape)
                            == ScanOutcome::Found(k));
                        assert(k + e <= l);
                        assert(marker_ends_at(r, marker, escape, k + e));
                        let head = r.subrange(0, k as int);
                        let after = r.subrange(k + e, l as int);
                        lemma_bmp_roundtrip(head);
                        lemma_bmp_roundtrip(after);
                        assert(spec_substring_utf16(r, 0, k as nat) == Some(head));
                        assert(spec_substring_utf16(r, (k + e) as nat, l) == Some(after));
                        let raws = raws0.push(head);
                        lemma_joined_push(raws0, head, marker);
                        assert(r.subrange(k as int, k + e) == marker);
                        assert(r =~= head + marker + after);
                        assert(s =~= joined(raws, marker) + after);
                        let ms = ms0.push(replace_all(head, escape, marker));
                        assert forall|i: int| 0 <= i < ms.len() implies ms[i] == replace_all(
                            raws[i],
                            escape,
                            marker,
                        ) by {
                            if i < ms0.len() {
                                assert(ms[i] == ms0[i]);
                                assert(raws[i] == raws0[i]);
                            }
                        }
                        raws
                    },
                    _ => raws0,
                }
            },
            None => raws0,
        }
    }
}

/// Whatever the gap `d` between byte length and character count, a position
/// the right-to-left search finds is `d` past the start of an unescaped end
/// marker that fits before the start position.
proof fn lemma_backward_found_marker(
    s: Seq<char>,
    d: nat,
    marker: Seq<char>,
    escape: Seq<char>,
    st: nat,
    up: nat,
    ci: nat,
)
    requires
        1 <= marker.len() <= escape.len(),
        st - d <= s.len(),
        st <= usize::MAX,
        ci <= st,
    ensures
        backward_scan(s, d, marker, escape, st, up, ci) matches ScanOutcome::Found(k) ==> {
            &&& k >= d
            &&& k - d + marker.len() <= st - d
            &&& marker_ends_at(s, marker, escape, k - d + marker.len())
        },
    decreases ci,
{
    let e = marker.len() as int;
    let q = ci - 1 - d;
    let top = st - d;
    if q >= 0 && !(ci == st && escape.len() - marker.len() > 0 && q < 0) {
        let hi = min_int(q + e, top);
        let is_marker = s.subrange(q, hi) == marker;
        let is_escape = q - (escape.len() - marker.len()) >= 0 && s.subrange(
            q - (escape.len() - marker.len()),
            hi,
        ) == escape;
        if is_marker && !is_escape {
            assert(s.subrange(q, hi).len() == e);
            if q + e >= escape.len() && s.subrange(q + e - escape.len(), q + e) == escape {
                assert(q - (escape.len() - marker.len()) == q + e - escape.len());
            }
        } else if ci - 1 > up && ci >= 1 {
            lemma_backward_found_marker(s, d, marker, escape, st, up, (ci - 1) as nat);
        }
    }
}

/// Over text whose byte length `l` is at least its character count, with no
/// early give-up (`up` is `l`), the left-to-right search finds a position
/// only at the start of an unescaped end marker, finds one whenever an
/// unescaped end marker ends at a candidate position, and otherwise finds
/// nothing only when no unescaped end marker ends at a candidate position.
proof fn lemma_forward_scan_marks(
    s: Seq<char>,
    l: nat,
    marker: Seq<char>,
    escape: Seq<char>,
    first: nat,
    st: nat,
    ci: nat,
)
    requires
        1 <= marker.len() <= escape.len(),
        marker.len() <= st <= l,
        s.len() <= l <= usize::MAX,
        first <= st,
        ci <= l,
    ensures
        forward_scan(s, l, marker, escape, first, st, l, ci) matches ScanOutcome::Found(k) ==> {
            &&& k + marker.len() <= s.len()
            &&& marker_ends_at(s, marker, escape, k + marker.len())
        },
        forall|c: int|
            max_int(ci + 1 as int, st as int) <= c <= s.len() && #[trigger] marker_ends_at(
                s,
                marker,
                escape,
                c,
            ) ==> forward_scan(s, l, marker, escape, first, st, l, ci) is Found,
        forward_scan(s, l, marker, escape, first, st, l, ci) is NotFound ==> forall|c: int|
            max_int(ci + 1 as int, st as int) <= c <= s.len() ==> !#[trigger] marker_ends_at(
                s,
                marker,
                escape,
                c,
            ),
    decreases l - ci,
{
    if ci < l {
        let c = ci + 1;
        lemma_forward_scan_marks(s, l, marker, escape, first, st, c);
        if c >= first && c <= s.len() && c >= st {
            lemma_windows_mark_end(s, marker, escape, c as int);
        }
    }
}

/// Whenever cutting messages out of text of the Basic Multilingual Plane
/// completes, it has removed only whole messages with their end markers: the
/// text is raw messages, each followed by an end marker, and then what is left
/// over; each message delivered is its raw message with escaped end markers
/// turned back into end markers; and what is left holds no end marker that is
/// not part of an escaped one (from the start position on).
#[verifier::spinoff_prover]
#[verifier::rlimit(60)]
pub proof fn law_completed_cut_removes_whole_messages(
    t: Seq<char>,
    start: nat,
    marker: Seq<char>,
    escape: Seq<char>,
) -> (raws: Seq<Seq<char>>)
    requires
        is_bmp(t),
        utf8_len(t) <= usize::MAX,
        1 <= marker.len() <= escape.len(),
    ensures
        spec_process_messages(t, start, marker, escape) matches Some((ms, rest)) ==> {
            &&& raws.len() == ms.len()
            &&& forall|i: int| 0 <= i < ms.len() ==> ms[i] == replace_all(raws[i], escape, marker)
            &&& t == joined(raws, marker) + rest
            &&& forall|c: int|
                max_int(start as int, marker.len() as int) <= c <= rest.len()
                    ==> !#[trigger] marker_ends_at(rest, marker, escape, c)
        },
    decreases t.len(),
{
    let l = utf8_len(t);
    let e = marker.len() as int;
    crate::message_processing::lemma_utf8_len_ge(t);
    if l < marker.len() {
        assert(joined(Seq::<Seq<char>>::empty(), marker) + t =~= t);
        return Seq::empty();
    }
    let st = clamp_start(start, marker.len(), l);
    let longest = if marker.len() > escape.len() {
        marker.len()
    } else {
        escape.len()
    };
    let first: nat = if st >= longest {
        (st - longest) as nat
    } else {
        0
    };
    assert(scan_left_to_right(t, l, marker, escape, start, l) == forward_scan(
        t,
        l,
        marker,
        escape,
        first,
        st,
        l,
        0,
    ));
    lemma_forward_scan_marks(t, l, marker, escape, first, st, 0);
    match scan_left_to_right(t, l, marker, escape, start, l) {
        ScanOutcome::Found(k) => {
            let head = t.subrange(0, k as int);
            let after = t.subrange(k + e, t.len() as int);
            lemma_bmp_roundtrip(head);
            lemma_bmp_roundtrip(after);
            assert(spec_substring_utf16(t, 0, k as nat) == Some(head));
            assert(spec_substring_utf16(t, (k + e) as nat, l) == Some(after));
            assert(t =~= t.subrange(0, k + e) + after);
            lemma_utf8_len_concat(t.subrange(0, k + e), after);
            let raws_rest = law_completed_cut_removes_whole_messages(after, 0, marker, escape);
            if let Some((ms_rest, left)) = spec_process_messages(after, 0, marker, escape) {
                let raws = seq![head] + raws_rest;
                assert(raws.drop_first() =~= raws_rest);
                assert(t.subrange(k as int, k + e) == marker);
                assert(t =~= head + marker + after);
                assert(joined(raws, marker) == head + marker + joined(raws_rest, marker));
                assert(t =~= joined(raws, marker) + left);
                let ms = seq![replace_all(head, escape, marker)] + ms_rest;
                assert forall|i: int| 0 <= i < ms.len() implies ms[i] == replace_all(
                    raws[i],
                    escape,
                    marker,
                ) by {
                    if i > 0 {
                        assert(ms[i] == ms_rest[i - 1]);
                        assert(raws[i] == raws_rest[i - 1]);
                    }
                }
                raws
            } else {
                Seq::empty()
            }
        },
        _ => {
            assert(joined(Seq::<Seq<char>>::empty(), marker) + t =~= t);
            Seq::empty()
        },
    }
}

/// Whenever splitting a client's buffer and newly received text completes, no
/// character is lost when the text lies in the Basic Multilingual Plane, what
/// stays buffered is ASCII and the end marker never overlaps itself, or when
/// the text holds no unescaped end marker at all, whatever the endmark: the
/// buffer followed by the received text is raw messages, each followed by an
/// end marker, and then what stays buffered; each message delivered is its raw
/// message with escaped end markers turned back into end markers.
#[verifier::spinoff_prover]
#[verifier::rlimit(40)]
pub proof fn law_completed_split_loses_nothing(
    buffer: Seq<char>,
    received: Seq<char>,
    marker: Seq<char>,
    escape: Seq<char>,
) -> (raws: Seq<Seq<char>>)
    requires
        utf8_len(buffer + received) <= usize::MAX,
        1 <= marker.len() <= escape.len(),
    ensures
        spec_split_client_input(buffer, received, marker, escape) matches Some((ms, rest)) ==> (
        (is_bmp(buffer + received) && vstd::utf8::is_ascii_chars(rest) && marker_never_overlaps(
            marker,
        )) || (forall|c: int| !#[trigger] marker_ends_at(buffer + received, marker, escape, c)))
            ==> {
            &&& raws.len() == ms.len()
            &&& forall|i: int| 0 <= i < ms.len() ==> ms[i] == replace_all(raws[i], escape, marker)
            &&& buffer + received == joined(raws, marker) + rest
        },
{
    let input = buffer + received;
    let m = marker;
    let x = escape;
    let e = m.len() as int;
    let l = utf8_len(input);
    crate::message_processing::lemma_utf8_len_ge(input);
    let d: nat = (l - input.len()) as nat;
    let prev = utf8_len(buffer);
    let up_to: nat = if prev >= m.len() + 1 {
        (prev - (m.len() + 1)) as nat
    } else {
        0
    };
    let r = scan_right_to_left(input, l, m, x, l, up_to);
    match r {
        ScanOutcome::Found(k) => {
            assert(l >= m.len());
            let st = clamp_start(l, m.len(), l);
            assert(st == l);
            let up: nat = if up_to < l {
                up_to
            } else {
                l
            };
            assert(r == backward_scan(input, d, m, x, st, up, st));
            lemma_backward_found_marker(input, d, m, x, st, up, st);
            let q = k - d;
            assert(marker_ends_at(input, m, x, q + e));
            if let Some((ms, rest)) = spec_split_client_input(buffer, received, m, x) {
                if is_bmp(input) && vstd::utf8::is_ascii_chars(rest) && marker_never_overlaps(m) {
                    let j = crate::message_processing::chars_before_byte(input, k + e)->Some_0;
                    crate::message_processing::lemma_chars_before_byte(input, k + e);
                    assert(rest == input.skip(j as int));
                    vstd::utf8::is_ascii_chars_encode_utf8(rest);
                    assert(input =~= input.take(j as int) + rest);
                    lemma_utf8_len_concat(input.take(j as int), rest);
                    assert(j == q + e);
                    let head = input.take(j as int);
                    assert(is_bmp(head));
                    let (ms2, left) = spec_process_messages(head, 0, m, x)->Some_0;
                    assert(ms2 == ms);
                    let raws = law_completed_cut_removes_whole_messages(head, 0, m, x);
                    lemma_marker_end_in_prefix(input, m, x, q + e);
                    assert(max_int(0, e) == e);
                    lemma_nothing_left_after_last_marker(head, raws, left, m, x);
                    assert(joined(raws, m) + left =~= joined(raws, m));
                    raws
                } else {
                    Seq::empty()
                }
            } else {
                Seq::empty()
            }
        },
        _ => {
            assert(joined(Seq::<Seq<char>>::empty(), m) + input =~= input);
            Seq::empty()
        },
    }
}

} // verus!
