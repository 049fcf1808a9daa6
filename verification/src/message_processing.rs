use std::collections::VecDeque;
use vstd::prelude::*;
use vstd::utf8::{encode_utf8, is_ascii_chars};
use crate::properties::{
    first_marker_found, last_marker_found, law_backward_search_finds_last_marker,
    law_forward_search_finds_first_marker,
};
use crate::text::{chars_of, decode_utf16, decode_utf16_units, replace_all, replace_chars, string_from_chars, truncate_units};

verus! {

broadcast use {
    vstd::string::group_string_axioms,
    vstd::std_specs::vecdeque::group_vec_dequeue_axioms,
    vstd::seq::group_seq_axioms,
};

/// Byte length of the UTF-8 encoding of `s`, which is what `str::len` reports.
pub open spec fn utf8_len(s: Seq<char>) -> nat {
    encode_utf8(s).len()
}

/// The marker that ends a message, and the escaped form of the marker that may
/// appear inside a message without ending it.
#[derive(Clone, Copy, Debug)]
pub struct Endmark {
    string: &'static str,
    escape: &'static str,
}

/// A usable pair of markers: both ASCII, the marker non-empty and the escape at
/// least as long as the marker.
pub open spec fn endmark_wf(marker: Seq<char>, escape: Seq<char>) -> bool {
    &&& is_ascii_chars(marker)
    &&& is_ascii_chars(escape)
    &&& 1 <= marker.len() <= escape.len()
}

impl Endmark {
    #[verifier::type_invariant]
    spec fn inv(self) -> bool {
        endmark_wf(self.string@, self.escape@)
    }

    /// The characters of the end marker.
    pub closed spec fn marker(self) -> Seq<char> {
        self.string@
    }

    /// The characters of the escaped end marker.
    pub closed spec fn escape_marker(self) -> Seq<char> {
        self.escape@
    }

    /// The end marker.
    pub fn string(&self) -> (s: &'static str)
        ensures
            s@ == self.marker(),
            utf8_len(s@) == s@.len(),
    {
        proof {
            use_type_invariant(self);
            vstd::utf8::is_ascii_chars_encode_utf8(self.string@);
        }
        self.string
    }

    /// The escaped end marker.
    pub fn escape(&self) -> (s: &'static str)
        ensures
            s@ == self.escape_marker(),
            utf8_len(s@) == s@.len(),
    {
        proof {
            use_type_invariant(self);
            vstd::utf8::is_ascii_chars_encode_utf8(self.escape@);
        }
        self.escape
    }
}

impl Endmark {
    /// The text sent for `message`: every end marker in it escaped, then the
    /// end marker.
    pub fn prepare_message(&self, message: &str) -> (r: String)
        ensures
            r@ == replace_all(message@, self.marker(), self.escape_marker()) + self.marker(),
    {
        proof {
            use_type_invariant(self);
        }
        let marker = chars_of(self.string);
        let escape = chars_of(self.escape);
        let text = chars_of(message);
        let mut escaped = replace_chars(&text, &marker, &escape);
        let ghost body = escaped@;
        let mut i: usize = 0;
        while i < marker.len()
            invariant
                i <= marker@.len(),
                escaped@ == body + marker@.take(i as int),
            decreases marker@.len() - i,
        {
            escaped.push(marker[i]);
            i += 1;
            assert(escaped@ =~= body + marker@.take(i as int));
        }
        assert(marker@.take(marker@.len() as int) =~= marker@);
        string_from_chars(&escaped)
    }
}

/// The characters of the default end marker, `EOF`.
pub open spec fn default_marker() -> Seq<char> {
    seq!['E', 'O', 'F']
}

/// The characters of the default escaped end marker, `\EOF`.
pub open spec fn default_escape() -> Seq<char> {
    seq!['\\', 'E', 'O', 'F']
}

/// The endmark the servers use unless told otherwise: `EOF`, escaped as `\EOF`.
pub fn default_endmark() -> (e: Endmark)
    ensures
        e.marker() == default_marker(),
        e.escape_marker() == default_escape(),
{
    proof {
        reveal_strlit("EOF");
        reveal_strlit("\\EOF");
        assert("EOF"@ =~= default_marker());
        assert("\\EOF"@ =~= default_escape());
    }
    Endmark { string: "EOF", escape: "\\EOF" }
}

/// The queue after `value` is inserted into a queue that holds at most
/// `capacity` items: when full, the item at the far end is dropped first.
pub open spec fn spec_insert_on_queue<T>(
    queue: Seq<T>,
    capacity: nat,
    value: T,
    front_to_back_order: bool,
) -> Seq<T> {
    let kept = if queue.len() >= capacity && queue.len() > 0 {
        if front_to_back_order {
            queue.drop_first()
        } else {
            queue.drop_last()
        }
    } else {
        queue
    };
    if front_to_back_order {
        kept.push(value)
    } else {
        seq![value] + kept
    }
}

/// Inserts `value` into a queue bounded by `capacity`: at the back when
/// `front_to_back_order`, else at the front, first dropping the item at the
/// other end when the queue is full.
pub fn insert_on_queue<T>(
    queue: &mut VecDeque<T>,
    capacity: usize,
    value: T,
    front_to_back_order: bool,
)
    ensures
        final(queue)@ == spec_insert_on_queue(old(queue)@, capacity as nat, value, front_to_back_order),
        old(queue)@.len() <= capacity ==> final(queue)@.len() <= capacity || capacity == 0,
{
    if queue.len() >= capacity {
        if front_to_back_order {
            queue.pop_front();
        } else {
            queue.pop_back();
        }
    }
    if front_to_back_order {
        queue.push_back(value);
    } else {
        queue.push_front(value);
    }
    proof {
        let ghost o = old(queue)@;
        if o.len() >= capacity && o.len() > 0 {
            if front_to_back_order {
                assert(o.subrange(1, o.len() as int) =~= o.drop_first());
            } else {
                assert(o.subrange(0, o.len() - 1) =~= o.drop_last());
            }
        }
    }
}

/// Whether the queue holds exactly the characters of `expected`, in order.
pub fn queue_matches(queue: &VecDeque<char>, expected: &Vec<char>) -> (b: bool)
    ensures
        b == (queue@ == expected@),
{
    if queue.len() != expected.len() {
        return false;
    }
    let mut i: usize = 0;
    while i < expected.len()
        invariant
            queue@.len() == expected@.len(),
            i <= expected@.len(),
            forall|j: int| 0 <= j < i ==> queue@[j] == expected@[j],
        decreases expected@.len() - i,
    {
        if queue[i] != expected[i] {
            return false;
        }
        i += 1;
    }
    assert(queue@ =~= expected@);
    true
}

/// Outcome of a search for the end of a message.
#[derive(Debug, PartialEq, Eq, Structural)]
pub enum ScanOutcome {
    /// The end of a message was found at this position.
    Found(usize),
    /// No end of message in the searched range.
    NotFound,
    /// The search would read past the characters of the input (its byte
    /// length exceeds its character count), which aborts.
    Fault,
}

/// The position found, if any.
pub open spec fn outcome_to_option(o: ScanOutcome) -> Option<usize> {
    match o {
        ScanOutcome::Found(i) => Some(i),
        _ => None,
    }
}

/// The smaller of two integers.
pub open spec fn min_int(a: int, b: int) -> int {
    if a < b {
        a
    } else {
        b
    }
}

/// The larger of two integers.
pub open spec fn max_int(a: int, b: int) -> int {
    if a > b {
        a
    } else {
        b
    }
}

/// The last `size` characters before `end` (fewer near the start).
pub open spec fn window(s: Seq<char>, end: int, size: int) -> Seq<char> {
    s.subrange(max_int(end - size, 0), end)
}

/// One step of the left-to-right search, at character count `ci`: the next
/// character is read once `first` is reached, and candidates are judged once
/// `start` is reached.
pub open spec fn forward_scan(
    s: Seq<char>,
    l: nat,
    marker: Seq<char>,
    escape: Seq<char>,
    first: nat,
    start: nat,
    up_to: nat,
    ci: nat,
) -> ScanOutcome
    decreases l - ci,
{
    if ci >= l {
        ScanOutcome::NotFound
    } else {
        let c = ci + 1;
        if c < first {
            forward_scan(s, l, marker, escape, first, start, up_to, c)
        } else if c > s.len() {
            ScanOutcome::Fault
        } else if c < start {
            forward_scan(s, l, marker, escape, first, start, up_to, c)
        } else if window(s, c as int, marker.len() as int) == marker && window(
            s,
            c as int,
            escape.len() as int,
        ) != escape {
            ScanOutcome::Found((c - marker.len()) as usize)
        } else if c - marker.len() > up_to {
            ScanOutcome::NotFound
        } else {
            forward_scan(s, l, marker, escape, first, start, up_to, c)
        }
    }
}

/// The position where the search starts, clamped between the marker length and
/// the byte length `l`.
pub open spec fn clamp_start(start: nat, e: nat, l: nat) -> nat {
    let a = if start > e {
        start
    } else {
        e
    };
    if a < l {
        a
    } else {
        l
    }
}

/// Left-to-right search over the characters `s` whose UTF-8 length is `l`: the
/// first occurrence of `marker`, ending at or after `start`, that is not the end
/// of an `escape`; the search gives up once candidates start after `up_to`.
pub open spec fn scan_left_to_right(
    s: Seq<char>,
    l: nat,
    marker: Seq<char>,
    escape: Seq<char>,
    start: nat,
    up_to: nat,
) -> ScanOutcome {
    if l < marker.len() {
        ScanOutcome::NotFound
    } else {
        let st = clamp_start(start, marker.len(), l);
        let up = if up_to < l {
            up_to
        } else {
            l
        };
        let longest = if marker.len() > escape.len() {
            marker.len()
        } else {
            escape.len()
        };
        let first: nat = if st >= longest {
            (st - longest) as nat
        } else {
            0
        };
        forward_scan(s, l, marker, escape, first, st, up, 0)
    }
}

/// The characters `s[from..end]`, but at most the last `size` of them.
pub open spec fn tail_window(s: Seq<char>, end: int, size: int, from: int) -> Seq<char> {
    if end <= from {
        Seq::empty()
    } else {
        s.subrange(max_int(end - size, from), end)
    }
}

/// Exec form of [`scan_left_to_right`] over the characters of the input.
pub fn scan_forward(
    chars: &Vec<char>,
    l: usize,
    marker: &Vec<char>,
    escape: &Vec<char>,
    start: usize,
    up_to: usize,
) -> (r: ScanOutcome)
    requires
        1 <= marker@.len() <= escape@.len(),
    ensures
        r == scan_left_to_right(chars@, l as nat, marker@, escape@, start as nat, up_to as nat),
{
    let e = marker.len();
    let x = escape.len();
    if l < e {
        return ScanOutcome::NotFound;
    }
    let st = if start > e {
        start
    } else {
        e
    };
    let st = if st < l {
        st
    } else {
        l
    };
    let up = if up_to < l {
        up_to
    } else {
        l
    };
    let longest = if e > x {
        e
    } else {
        x
    };
    let first: usize = if st >= longest {
        st - longest
    } else {
        0
    };
    let ghost from: int = if first >= 1 {
        first - 1
    } else {
        0
    };
    let ghost s = chars@;
    let mut buffered_marker: VecDeque<char> = VecDeque::with_capacity(e);
    let mut buffered_escape: VecDeque<char> = VecDeque::with_capacity(x);
    let mut ci: usize = 0;
    assert(st == clamp_start(start as nat, e as nat, l as nat));
    while ci < l
        invariant
            e == marker@.len(),
            x == escape@.len(),
            1 <= e <= x,
            longest == x,
            e <= st <= l,
            up <= l,
            first <= st,
            first >= 1 ==> first == st - x,
            from == (if first >= 1 {
                first - 1
            } else {
                0
            }),
            s == chars@,
            ci <= l,
            ci < first || ci <= s.len(),
            forward_scan(s, l as nat, marker@, escape@, first as nat, st as nat, up as nat, ci as nat)
                == scan_left_to_right(s, l as nat, marker@, escape@, start as nat, up_to as nat),
            buffered_marker@ == tail_window(s, ci as int, e as int, from),
            buffered_escape@ == tail_window(s, ci as int, x as int, from),
        decreases l - ci,
    {
        ci += 1;
        if ci < first {
            assert(buffered_marker@ =~= tail_window(s, ci as int, e as int, from));
            assert(buffered_escape@ =~= tail_window(s, ci as int, x as int, from));
            continue;
        }
        if ci > chars.len() {
            return ScanOutcome::Fault;
        }
        let c = chars[ci - 1];
        insert_on_queue(&mut buffered_marker, e, c, true);
        insert_on_queue(&mut buffered_escape, x, c, true);
        assert(buffered_marker@ =~= tail_window(s, ci as int, e as int, from));
        assert(buffered_escape@ =~= tail_window(s, ci as int, x as int, from));
        if ci < st {
            continue;
        }
        assert(tail_window(s, ci as int, e as int, from) =~= window(s, ci as int, e as int));
        assert(tail_window(s, ci as int, x as int, from) =~= window(s, ci as int, x as int));
        let is_marker = queue_matches(&buffered_marker, marker);
        let is_escape = queue_matches(&buffered_escape, escape);
        let real_index = ci - e;
        if is_marker && !is_escape {
            return ScanOutcome::Found(real_index);
        }
        if real_index > up {
            return ScanOutcome::NotFound;
        }
    }
    ScanOutcome::NotFound
}


/// One step of the right-to-left search at position `ci`, where `d` is the
/// byte length minus the character count, `r` the clamped starting position and
/// `up` the position at or below which the search gives up. At step `ci` the
/// character `s[ci - 1 - d]` is read; the escape window runs `escape.len() -
/// marker.len()` characters further left than the marker window.
pub open spec fn backward_scan(
    s: Seq<char>,
    d: nat,
    marker: Seq<char>,
    escape: Seq<char>,
    r: nat,
    up: nat,
    ci: nat,
) -> ScanOutcome
    decreases ci,
{
    let e = marker.len() as int;
    let n = escape.len() - marker.len();
    let q = ci - 1 - d;
    let top = r - d;
    if ci == r && n > 0 && q < 0 {
        ScanOutcome::NotFound
    } else if q < 0 {
        ScanOutcome::Fault
    } else {
        let hi = min_int(q + e, top);
        let is_marker = s.subrange(q, hi) == marker;
        let is_escape = q - n >= 0 && s.subrange(q - n, hi) == escape;
        if is_marker && !is_escape {
            ScanOutcome::Found((ci - 1) as usize)
        } else if ci - 1 <= up {
            ScanOutcome::NotFound
        } else {
            backward_scan(s, d, marker, escape, r, up, (ci - 1) as nat)
        }
    }
}

/// Right-to-left search over the characters `s` whose UTF-8 length is `l`
/// (`l >= s.len()`), starting at the clamped `start` and giving up at `up_to`:
/// the last occurrence of `marker` (before the start) that is not the end of an
/// `escape`.
pub open spec fn scan_right_to_left(
    s: Seq<char>,
    l: nat,
    marker: Seq<char>,
    escape: Seq<char>,
    start: nat,
    up_to: nat,
) -> ScanOutcome {
    if l < marker.len() {
        ScanOutcome::NotFound
    } else {
        let st = clamp_start(start, marker.len(), l);
        let up = if up_to < l {
            up_to
        } else {
            l
        };
        backward_scan(s, (l - s.len()) as nat, marker, escape, st, up, st)
    }
}

/// Exec form of [`scan_right_to_left`] over the characters of the input.
pub fn scan_backward(
    chars: &Vec<char>,
    l: usize,
    marker: &Vec<char>,
    escape: &Vec<char>,
    start: usize,
    up_to: usize,
) -> (r: ScanOutcome)
    requires
        1 <= marker@.len() <= escape@.len(),
        chars@.len() <= l,
    ensures
        r == scan_right_to_left(chars@, l as nat, marker@, escape@, start as nat, up_to as nat),
{
    let e = marker.len();
    let x = escape.len();
    if l < e {
        return ScanOutcome::NotFound;
    }
    let st = if start > e {
        start
    } else {
        e
    };
    let st = if st < l {
        st
    } else {
        l
    };
    let up = if up_to < l {
        up_to
    } else {
        l
    };
    assert(st == clamp_start(start as nat, e as nat, l as nat));
    let ghost s = chars@;
    let n_chars = chars.len();
    let ghost d: nat = (l - n_chars) as nat;
    let ghost target = scan_right_to_left(chars@, l as nat, marker@, escape@, start as nat, up_to as nat);
    let n = x - e;
    let mut ci: usize = l;
    let mut pe: usize = n_chars;
    let mut px: usize = n_chars;
    let mut buffered_marker: VecDeque<char> = VecDeque::with_capacity(e);
    let mut buffered_escape: VecDeque<char> = VecDeque::with_capacity(x);
    loop
        invariant
            e == marker@.len(),
            x == escape@.len(),
            1 <= e <= x,
            n == x - e,
            e <= st <= l,
            up <= l,
            s == chars@,
            n_chars == s.len(),
            d == l - n_chars,
            ci <= l,
            target == backward_scan(s, d, marker@, escape@, st as nat, up as nat, st as nat),
            target == scan_right_to_left(s, l as nat, marker@, escape@, start as nat, up_to as nat),
            ci >= st ==> {
                &&& pe as int == max_int(ci - d, 0)
                &&& px == pe
                &&& buffered_marker@ == Seq::<char>::empty()
                &&& buffered_escape@ == Seq::<char>::empty()
            },
            ci < st ==> {
                &&& ci - d >= 0
                &&& ci > up
                &&& pe as int == ci - d
                &&& px as int == max_int(ci - d - n, 0)
                &&& buffered_marker@ == s.subrange(ci - d, min_int(ci - d + e, st - d))
                &&& ci - d - n >= 0 ==> buffered_escape@ == s.subrange(
                    ci - d - n,
                    min_int(ci - d + e, st - d),
                )
                &&& backward_scan(s, d, marker@, escape@, st as nat, up as nat, ci as nat) == target
            },
        decreases ci,
    {
        let ghost ci0 = ci;
        let ghost q: int = ci - 1 - d;
        let ghost hi: int = min_int(q + e, st - d);
        let marker_char: Option<char> = if pe > 0 {
            pe = pe - 1;
            Some(chars[pe])
        } else {
            None
        };
        let mut escape_char: Option<char> = if px > 0 {
            px = px - 1;
            Some(chars[px])
        } else {
            None
        };
        let mut ignore_escape = escape_char.is_none();
        if ci > st {
            ci = ci - 1;
            continue;
        }
        assert(marker_char is None <==> q < 0);
        if ci == st && n > 0 {
            match escape_char {
                None => {
                    return ScanOutcome::NotFound;
                },
                Some(c) => {
                    insert_on_queue(&mut buffered_escape, x, c, false);
                },
            }
            assert(buffered_escape@ =~= s.subrange(q, q + 1));
            let mut i: usize = 1;
            while i < n && px > 0
                invariant
                    1 <= i <= n,
                    n < x,
                    s == chars@,
                    n_chars == s.len(),
                    q >= 0,
                    q < n_chars,
                    px as int + i == q + 1,
                    buffered_escape@ == s.subrange(px as int, q + 1),
                decreases n - i,
            {
                px = px - 1;
                insert_on_queue(&mut buffered_escape, x, chars[px], false);
                assert(buffered_escape@ =~= s.subrange(px as int, q + 1));
                i = i + 1;
            }
            assert(px as int == max_int(q + 1 - n, 0));
            escape_char = if px > 0 {
                px = px - 1;
                Some(chars[px])
            } else {
                None
            };
            ignore_escape = escape_char.is_none();
        }
        let c = match marker_char {
            None => {
                return ScanOutcome::Fault;
            },
            Some(c) => c,
        };
        insert_on_queue(&mut buffered_marker, e, c, false);
        assert(buffered_marker@ =~= s.subrange(q, hi));
        match escape_char {
            Some(c2) => {
                insert_on_queue(&mut buffered_escape, x, c2, false);
            },
            None => {},
        }
        assert(!ignore_escape ==> buffered_escape@ =~= s.subrange(q - n, hi));
        assert(ignore_escape == (q - n < 0));
        let is_marker = queue_matches(&buffered_marker, marker);
        let is_escape = !ignore_escape && queue_matches(&buffered_escape, escape);
        if ci != 0 {
            ci = ci - 1;
        }
        if is_marker && !is_escape {
            return ScanOutcome::Found(ci);
        }
        if ci <= up {
            return ScanOutcome::NotFound;
        }
    }
}


/// A string's byte length is at least its character count.
pub proof fn lemma_utf8_len_ge(s: Seq<char>)
    ensures
        utf8_len(s) >= s.len(),
    decreases s.len(),
{
    if s.len() > 0 {
        lemma_utf8_len_ge(s.drop_first());
    }
}

/// The byte length of two texts together is the sum of their byte lengths.
pub proof fn lemma_utf8_len_concat(a: Seq<char>, b: Seq<char>)
    ensures
        utf8_len(a + b) == utf8_len(a) + utf8_len(b),
    decreases a.len(),
{
    if a.len() > 0 {
        lemma_utf8_len_concat(a.drop_first(), b);
        assert((a + b).drop_first() =~= a.drop_first() + b);
        assert((a + b)[0] == a[0]);
    }
}

/// The characters `s[start..end]` (both clamped to the length), each cut to its
/// low 16 bits and decoded again as UTF-16; `None` when that decoding fails.
pub open spec fn spec_substring_utf16(s: Seq<char>, start: nat, end: nat) -> Option<Seq<char>> {
    let m = if end < s.len() {
        end
    } else {
        s.len()
    };
    let a = if start < m {
        start
    } else {
        m
    };
    decode_utf16(truncate_units(s.subrange(a as int, m as int)))
}

/// Exec form of [`spec_substring_utf16`] over characters.
pub fn substring_chars(chars: &Vec<char>, start_index: usize, end_index: usize) -> (r: Option<
    Vec<char>,
>)
    ensures
        match spec_substring_utf16(chars@, start_index as nat, end_index as nat) {
            Some(d) => r matches Some(v) && v@ == d,
            None => r is None,
        },
{
    let m = if end_index < chars.len() {
        end_index
    } else {
        chars.len()
    };
    let a = if start_index < m {
        start_index
    } else {
        m
    };
    let ghost part = chars@.subrange(a as int, m as int);
    let mut units: Vec<u16> = Vec::new();
    let mut i: usize = a;
    while i < m
        invariant
            a <= i <= m,
            m <= chars@.len(),
            part == chars@.subrange(a as int, m as int),
            units@ == truncate_units(part).take(i - a),
        decreases m - i,
    {
        let c = chars[i];
        let unit: u16 = ((c as u32) % 0x10000) as u16;
        units.push(unit);
        i += 1;
        assert(units@ =~= truncate_units(part).take(i - a));
    }
    assert(truncate_units(part).take(m - a) =~= truncate_units(part));
    decode_utf16_units(&units)
}

/// The characters of `original_string` between the character positions
/// `start_index` and `end_index`, each cut to its low 16 bits and decoded again
/// as UTF-16.
pub fn substring_utf16(original_string: &str, start_index: usize, end_index: usize) -> (r: String)
    requires
        spec_substring_utf16(original_string@, start_index as nat, end_index as nat) is Some,
    ensures
        r@ == spec_substring_utf16(original_string@, start_index as nat, end_index as nat)->Some_0,
{
    let chars = chars_of(original_string);
    let part = substring_chars(&chars, start_index, end_index);
    match part {
        Some(v) => string_from_chars(&v),
        None => String::new(),
    }
}

/// Where a message ends in `s`, searched as `find_message_end_bound_utf16` does
/// over a string with the characters `s`.
pub open spec fn spec_find_message_end_bound(
    s: Seq<char>,
    start_checking_from: nat,
    check_from_left_to_right: bool,
    up_to: nat,
    marker: Seq<char>,
    escape: Seq<char>,
) -> ScanOutcome {
    if check_from_left_to_right {
        scan_left_to_right(s, utf8_len(s), marker, escape, start_checking_from, up_to)
    } else {
        scan_right_to_left(s, utf8_len(s), marker, escape, start_checking_from, up_to)
    }
}

/// The search of [`find_message_end_bound_utf16`] over already split characters
/// and the byte length `l` of their string.
pub fn find_end_bound_in_chars(
    chars: &Vec<char>,
    l: usize,
    start_checking_from: usize,
    check_from_left_to_right: bool,
    up_to: usize,
    endmark: &Endmark,
) -> (r: ScanOutcome)
    requires
        l == utf8_len(chars@),
    ensures
        r == spec_find_message_end_bound(
            chars@,
            start_checking_from as nat,
            check_from_left_to_right,
            up_to as nat,
            endmark.marker(),
            endmark.escape_marker(),
        ),
{
    proof {
        use_type_invariant(endmark);
        lemma_utf8_len_ge(chars@);
    }
    let marker = chars_of(endmark.string());
    let escape = chars_of(endmark.escape());
    if check_from_left_to_right {
        scan_forward(chars, l, &marker, &escape, start_checking_from, up_to)
    } else {
        scan_backward(chars, l, &marker, &escape, start_checking_from, up_to)
    }
}

/// The search of [`find_message_end_bound_utf16`], reporting also the inputs on
/// which that search cannot complete.
pub fn find_message_end_bound_outcome(
    input: &str,
    start_checking_from: usize,
    check_from_left_to_right: bool,
    up_to: usize,
    endmark: &Endmark,
) -> (r: ScanOutcome)
    ensures
        r == spec_find_message_end_bound(
            input@,
            start_checking_from as nat,
            check_from_left_to_right,
            up_to as nat,
            endmark.marker(),
            endmark.escape_marker(),
        ),
        is_ascii_chars(input@) ==> r != ScanOutcome::Fault,
        is_ascii_chars(input@) && check_from_left_to_right ==> forall|k: usize|
            r == ScanOutcome::Found(k) <==> #[trigger] first_marker_found(
                input@,
                endmark.marker(),
                endmark.escape_marker(),
                start_checking_from as nat,
                up_to as nat,
                k as int,
            ),
        is_ascii_chars(input@) && !check_from_left_to_right ==> forall|k: usize|
            r == ScanOutcome::Found(k) <==> #[trigger] last_marker_found(
                input@,
                endmark.marker(),
                endmark.escape_marker(),
                start_checking_from as nat,
                up_to as nat,
                k as int,
            ),
{
    let chars = chars_of(input);
    let l = input.as_bytes().len();
    let r = find_end_bound_in_chars(&chars, l, start_checking_from, check_from_left_to_right, up_to, endmark);
    proof {
        if is_ascii_chars(input@) {
            use_type_invariant(endmark);
            vstd::utf8::is_ascii_chars_encode_utf8(input@);
            if check_from_left_to_right {
                law_forward_search_finds_first_marker(
                    input@,
                    endmark.marker(),
                    endmark.escape_marker(),
                    start_checking_from as nat,
                    up_to as nat,
                );
            } else {
                law_backward_search_finds_last_marker(
                    input@,
                    endmark.marker(),
                    endmark.escape_marker(),
                    start_checking_from as nat,
                    up_to as nat,
                );
            }
        }
    }
    r
}

/// Finds where a message ends in `input`: scanning left to right from
/// `start_checking_from`, the start of the first end marker not preceded by the
/// rest of its escape; scanning right to left, the last one. Positions count
/// characters; the bounds are clamped by the byte length of `input`. On ASCII
/// input the position found is the one [`first_marker_found`] and
/// [`last_marker_found`] describe.
pub fn find_message_end_bound_utf16(
    input: &str,
    start_checking_from: usize,
    check_from_left_to_right: bool,
    up_to: usize,
    endmark: &Endmark,
) -> (r: Option<usize>)
    requires
        spec_find_message_end_bound(
            input@,
            start_checking_from as nat,
            check_from_left_to_right,
            up_to as nat,
            endmark.marker(),
            endmark.escape_marker(),
        ) != ScanOutcome::Fault,
    ensures
        r == outcome_to_option(
            spec_find_message_end_bound(
                input@,
                start_checking_from as nat,
                check_from_left_to_right,
                up_to as nat,
                endmark.marker(),
                endmark.escape_marker(),
            ),
        ),
        is_ascii_chars(input@) && check_from_left_to_right ==> forall|k: usize|
            r == Some(k) <==> #[trigger] first_marker_found(
                input@,
                endmark.marker(),
                endmark.escape_marker(),
                start_checking_from as nat,
                up_to as nat,
                k as int,
            ),
        is_ascii_chars(input@) && !check_from_left_to_right ==> forall|k: usize|
            r == Some(k) <==> #[trigger] last_marker_found(
                input@,
                endmark.marker(),
                endmark.escape_marker(),
                start_checking_from as nat,
                up_to as nat,
                k as int,
            ),
{
    match find_message_end_bound_outcome(
        input,
        start_checking_from,
        check_from_left_to_right,
        up_to,
        endmark,
    ) {
        ScanOutcome::Found(i) => Some(i),
        _ => None,
    }
}


/// A position found by the left-to-right search leaves room for the marker.
pub proof fn lemma_forward_scan_found(
    s: Seq<char>,
    l: nat,
    marker: Seq<char>,
    escape: Seq<char>,
    first: nat,
    start: nat,
    up_to: nat,
    ci: nat,
)
    requires
        l <= usize::MAX,
        start >= marker.len(),
    ensures
        forward_scan(s, l, marker, escape, first, start, up_to, ci) matches ScanOutcome::Found(k)
            ==> k + marker.len() <= s.len() && k + marker.len() <= l,
    decreases l - ci,
{
    if ci < l {
        lemma_forward_scan_found(s, l, marker, escape, first, start, up_to, ci + 1);
    }
}

/// Messages cut out of `s`, as `find_and_process_messages` cuts them: each
/// search for an end marker starts at `start` (then at 0) and runs over the
/// whole text; the message before the marker is cut to 16-bit units and decoded
/// again, and its escapes are turned back into markers; the text after the
/// marker, decoded the same way, is searched next. The result is the messages
/// in order and the text left over, or `None` when cutting cannot complete.
pub open spec fn spec_process_messages(
    s: Seq<char>,
    start: nat,
    marker: Seq<char>,
    escape: Seq<char>,
) -> Option<(Seq<Seq<char>>, Seq<char>)>
    decreases s.len(),
{
    let l = utf8_len(s);
    match scan_left_to_right(s, l, marker, escape, start, l) {
        ScanOutcome::Fault => None,
        ScanOutcome::NotFound => Some((Seq::empty(), s)),
        ScanOutcome::Found(k) => {
            match (
                spec_substring_utf16(s, 0, k as nat),
                spec_substring_utf16(s, (k + marker.len()) as nat, l),
            ) {
                (Some(message), Some(rest)) => {
                    if rest.len() < s.len() {
                        match spec_process_messages(rest, 0, marker, escape) {
                            Some((ms, r)) => Some(
                                (seq![replace_all(message, escape, marker)] + ms, r),
                            ),
                            None => None,
                        }
                    } else {
                        None
                    }
                },
                _ => None,
            }
        },
    }
}

/// One cut of [`spec_process_messages`]: where the first end marker is found
/// (searching from `start`), the message before it, cut to 16-bit units,
/// decoded again and unescaped, and the text after it, decoded the same way;
/// no message and the text unchanged when no end marker is found; `None` when
/// the cut cannot complete.
pub open spec fn spec_cut_message(
    s: Seq<char>,
    start: nat,
    marker: Seq<char>,
    escape: Seq<char>,
) -> Option<(Option<Seq<char>>, Seq<char>)> {
    let l = utf8_len(s);
    match scan_left_to_right(s, l, marker, escape, start, l) {
        ScanOutcome::Fault => None,
        ScanOutcome::NotFound => Some((None, s)),
        ScanOutcome::Found(k) => match (
            spec_substring_utf16(s, 0, k as nat),
            spec_substring_utf16(s, (k + marker.len()) as nat, l),
        ) {
            (Some(message), Some(rest)) => Some((Some(replace_all(message, escape, marker)), rest)),
            _ => None,
        },
    }
}

/// Cuts the first complete message out of `input`, searching from
/// `start_checking_from`: `Ok(Some(message))`, unescaped, with `input` left
/// holding the text after its end marker; `Ok(None)`, with `input` unchanged,
/// when no message is complete; `Err(())`, with `input` unchanged, when the
/// cut cannot complete. Repeating this from position 0 while the caller
/// wishes cuts the messages one by one, as [`find_and_process_messages`] cuts
/// them all.
pub fn cut_next_message(input: &mut String, start_checking_from: usize, endmark: &Endmark) -> (r:
    Result<Option<String>, ()>)
    ensures
        match spec_cut_message(
            old(input)@,
            start_checking_from as nat,
            endmark.marker(),
            endmark.escape_marker(),
        ) {
            None => r is Err && final(input)@ == old(input)@,
            Some((None, _)) => r == Ok::<Option<String>, ()>(None) && final(input)@ == old(input)@,
            Some((Some(m), rest)) => r matches Ok(Some(v)) && v@ == m && final(input)@ == rest,
        },
        spec_process_messages(
            old(input)@,
            start_checking_from as nat,
            endmark.marker(),
            endmark.escape_marker(),
        ) == match r {
            Err(_) => None,
            Ok(None) => Some((Seq::<Seq<char>>::empty(), old(input)@)),
            Ok(Some(m)) => after_messages(
                seq![m@],
                spec_process_messages(final(input)@, 0, endmark.marker(), endmark.escape_marker()),
            ),
        },
        r matches Ok(Some(_)) ==> final(input)@.len() < old(input)@.len(),
{
    proof {
        use_type_invariant(endmark);
    }
    let marker = chars_of(endmark.string());
    let escape = chars_of(endmark.escape());
    let e = marker.len();
    let ghost m = endmark.marker();
    let ghost es = endmark.escape_marker();
    let chars = chars_of(input.as_str());
    let ghost s = chars@;
    let l = input.as_str().as_bytes().len();
    proof {
        lemma_utf8_len_ge(s);
        law_cutting_one_at_a_time(s, start_checking_from as nat, m, es);
        lemma_cut_shrinks(s, start_checking_from as nat, m, es);
    }
    match find_end_bound_in_chars(&chars, l, start_checking_from, true, l, endmark) {
        ScanOutcome::Found(k) => {
            proof {
                let st = clamp_start(start_checking_from as nat, e as nat, l as nat);
                let longest = if e > es.len() {
                    e as nat
                } else {
                    es.len()
                };
                let first: nat = if st >= longest {
                    (st - longest) as nat
                } else {
                    0
                };
                lemma_forward_scan_found(s, l as nat, m, es, first, st, l as nat, 0);
            }
            let message = substring_chars(&chars, 0, k);
            let rest = substring_chars(&chars, k + e, l);
            match (message, rest) {
                (Some(a), Some(b)) => {
                    let unescaped = replace_chars(&a, &escape, &marker);
                    *input = string_from_chars(&b);
                    Ok(Some(string_from_chars(&unescaped)))
                },
                _ => Err(()),
            }
        },
        ScanOutcome::NotFound => Ok(None),
        ScanOutcome::Fault => Err(()),
    }
}

/// A cut that finds a message leaves a shorter text.
proof fn lemma_cut_shrinks(s: Seq<char>, start: nat, marker: Seq<char>, escape: Seq<char>)
    requires
        utf8_len(s) <= usize::MAX,
        1 <= marker.len(),
    ensures
        spec_cut_message(s, start, marker, escape) matches Some((Some(_), rest)) ==> rest.len()
            < s.len(),
{
    law_cutting_one_at_a_time(s, start, marker, escape);
    let l = utf8_len(s);
    lemma_utf8_len_ge(s);
    if let ScanOutcome::Found(k) = scan_left_to_right(s, l, marker, escape, start, l) {
        if l >= marker.len() {
            let st = clamp_start(start, marker.len(), l);
            let longest = if marker.len() > escape.len() {
                marker.len()
            } else {
                escape.len()
            };
            let first: nat = if st >= longest {
                (st - longest) as nat
            } else {
                0
            };
            lemma_forward_scan_found(s, l, marker, escape, first, st, l, 0);
        }
        if let Some(rest) = spec_substring_utf16(s, (k + marker.len()) as nat, l) {
            crate::text::lemma_decode_utf16_len(
                truncate_units(s.subrange((k + marker.len()) as int, s.len() as int)),
            );
        }
    }
}

/// When cutting all messages cuts none, the text is left as it was.
proof fn lemma_no_messages_keeps_text(s: Seq<char>, start: nat, marker: Seq<char>, escape: Seq<char>)
    ensures
        spec_process_messages(s, start, marker, escape) matches Some((ms, rest)) ==> (ms.len()
            == 0 ==> rest == s),
{
}

/// Cutting messages one at a time gives what cutting them all gives: the
/// first cut's message, then the messages cut from the rest searching from
/// position 0; no message when the first cut finds none; failure when it
/// fails.
pub proof fn law_cutting_one_at_a_time(
    s: Seq<char>,
    start: nat,
    marker: Seq<char>,
    escape: Seq<char>,
)
    requires
        utf8_len(s) <= usize::MAX,
        1 <= marker.len(),
    ensures
        spec_process_messages(s, start, marker, escape) == match spec_cut_message(
            s,
            start,
            marker,
            escape,
        ) {
            None => None,
            Some((None, _)) => Some((Seq::<Seq<char>>::empty(), s)),
            Some((Some(m), rest)) => after_messages(
                seq![m],
                spec_process_messages(rest, 0, marker, escape),
            ),
        },
{
    let l = utf8_len(s);
    lemma_utf8_len_ge(s);
    if let ScanOutcome::Found(k) = scan_left_to_right(s, l, marker, escape, start, l) {
        if l >= marker.len() {
            let st = clamp_start(start, marker.len(), l);
            let longest = if marker.len() > escape.len() {
                marker.len()
            } else {
                escape.len()
            };
            let first: nat = if st >= longest {
                (st - longest) as nat
            } else {
                0
            };
            lemma_forward_scan_found(s, l, marker, escape, first, st, l, 0);
        }
        if let Some(rest) = spec_substring_utf16(s, (k + marker.len()) as nat, l) {
            crate::text::lemma_decode_utf16_len(
                truncate_units(s.subrange((k + marker.len()) as int, s.len() as int)),
            );
            assert(rest.len() < s.len());
        }
    }
}

/// The characters of each string.
pub open spec fn strings_view(v: Seq<String>) -> Seq<Seq<char>> {
    v.map_values(|m: String| m@)
}

/// The messages and the leftover of [`spec_process_messages`] with the messages
/// appended after `done`.
pub open spec fn after_messages(
    done: Seq<Seq<char>>,
    r: Option<(Seq<Seq<char>>, Seq<char>)>,
) -> Option<(Seq<Seq<char>>, Seq<char>)> {
    match r {
        Some((ms, rest)) => Some((done + ms, rest)),
        None => None,
    }
}

/// Exec form of [`spec_process_messages`]: the messages cut out of `text` and
/// the text left over, or `None` when cutting cannot complete.
pub fn try_process_messages(text: &str, start_checking_from: usize, endmark: &Endmark) -> (r:
    Option<(Vec<String>, String)>)
    ensures
        match spec_process_messages(
            text@,
            start_checking_from as nat,
            endmark.marker(),
            endmark.escape_marker(),
        ) {
            Some((ms, rest)) => r matches Some((v, b)) && strings_view(v@) == ms && b@ == rest,
            None => r is None,
        },
{
    proof {
        use_type_invariant(endmark);
    }
    let marker = chars_of(endmark.string());
    let escape = chars_of(endmark.escape());
    let e = marker.len();
    let ghost m = endmark.marker();
    let ghost es = endmark.escape_marker();
    let ghost total = spec_process_messages(text@, start_checking_from as nat, m, es);
    let mut messages: Vec<String> = Vec::new();
    let mut input = chars_of(text);
    let mut start = start_checking_from;
    assert(strings_view(messages@) =~= Seq::<Seq<char>>::empty());
    proof {
        match total {
            Some((ms, r)) => {
                assert(Seq::<Seq<char>>::empty() + ms =~= ms);
            },
            None => {},
        }
    }
    loop
        invariant
            marker@ == m,
            escape@ == es,
            e == m.len(),
            endmark_wf(m, es),
            endmark.marker() == m,
            endmark.escape_marker() == es,
            total == spec_process_messages(text@, start_checking_from as nat, m, es),
            total == after_messages(
                strings_view(messages@),
                spec_process_messages(input@, start as nat, m, es),
            ),
        decreases input@.len(),
    {
        let ghost s = input@;
        let current = string_from_chars(&input);
        let l = current.as_str().as_bytes().len();
        proof {
            lemma_utf8_len_ge(s);
        }
        let outcome = find_end_bound_in_chars(&input, l, start, true, l, endmark);
        match outcome {
            ScanOutcome::Found(k) => {
                proof {
                    let st = clamp_start(start as nat, e as nat, l as nat);
                    let longest = if e > es.len() {
                        e as nat
                    } else {
                        es.len()
                    };
                    let first: nat = if st >= longest {
                        (st - longest) as nat
                    } else {
                        0
                    };
                    lemma_forward_scan_found(s, l as nat, m, es, first, st, l as nat, 0);
                }
                let message = substring_chars(&input, 0, k);
                let rest = substring_chars(&input, k + e, l);
                let (message, rest) = match (message, rest) {
                    (Some(a), Some(b)) => (a, b),
                    _ => {
                        return None;
                    },
                };
                proof {
                    let n = s.len();
                    crate::text::lemma_decode_utf16_len(
                        truncate_units(s.subrange((k + e) as int, n as int)),
                    );
                    assert(rest@.len() < s.len());
                }
                let unescaped = replace_chars(&message, &escape, &marker);
                let ghost before = strings_view(messages@);
                messages.push(string_from_chars(&unescaped));
                assert(strings_view(messages@) =~= before + seq![unescaped@]);
                proof {
                    match spec_process_messages(rest@, 0, m, es) {
                        Some((ms, r)) => {
                            assert(before + (seq![unescaped@] + ms) =~= strings_view(messages@)
                                + ms);
                        },
                        None => {},
                    }
                }
                input = rest;
                start = 0;
            },
            ScanOutcome::NotFound => {
                assert(strings_view(messages@) + Seq::<Seq<char>>::empty() =~= strings_view(
                    messages@,
                ));
                return Some((messages, current));
            },
            ScanOutcome::Fault => {
                return None;
            },
        }
    }
}

/// The messages and the text left after the first `n` cuts of
/// [`spec_cut_message`], the first searching from `start` and the others from
/// position 0; `None` when fewer than `n` messages can be cut.
pub open spec fn spec_cut_messages(
    s: Seq<char>,
    start: nat,
    marker: Seq<char>,
    escape: Seq<char>,
    n: nat,
) -> Option<(Seq<Seq<char>>, Seq<char>)>
    decreases n,
{
    if n == 0 {
        Some((Seq::empty(), s))
    } else {
        match spec_cut_messages(s, start, marker, escape, (n - 1) as nat) {
            Some((ms, rest)) => match spec_cut_message(
                rest,
                if n == 1 {
                    start
                } else {
                    0
                },
                marker,
                escape,
            ) {
                Some((Some(m), after)) => Some((ms.push(m), after)),
                _ => None,
            },
            None => None,
        }
    }
}

/// `keep` accepts every one of `messages`.
pub open spec fn all_accepted(messages: Seq<Seq<char>>, keep: spec_fn(Seq<char>) -> bool) -> bool {
    forall|i: int| 0 <= i < messages.len() ==> keep(#[trigger] messages[i])
}

/// How many of `messages` an action is handed when it keeps the flag set
/// exactly for the messages `keep` accepts: up to and including the first it
/// does not accept, or all of them.
pub open spec fn handed_until_stop(
    messages: Seq<Seq<char>>,
    keep: spec_fn(Seq<char>) -> bool,
) -> nat
    decreases messages.len(),
{
    if messages.len() == 0 {
        0
    } else if !keep(messages[0]) {
        1
    } else {
        1 + handed_until_stop(messages.drop_first(), keep)
    }
}

/// `handed_until_stop` counted over the messages after the first `n`, all
/// accepted.
proof fn lemma_handed_step(messages: Seq<Seq<char>>, keep: spec_fn(Seq<char>) -> bool, n: int)
    requires
        0 <= n < messages.len(),
        forall|i: int| 0 <= i < n ==> keep(#[trigger] messages[i]),
    ensures
        !keep(messages[n]) ==> handed_until_stop(messages, keep) == n + 1,
        keep(messages[n]) ==> forall|i: int| 0 <= i < n + 1 ==> keep(#[trigger] messages[i]),
    decreases n,
{
    if n > 0 {
        let rest = messages.drop_first();
        assert forall|i: int| 0 <= i < n - 1 implies keep(#[trigger] rest[i]) by {
            assert(rest[i] == messages[i + 1]);
        }
        assert(keep(messages[0]));
        assert(rest[n - 1] == messages[n]);
        lemma_handed_step(rest, keep, n - 1);
    }
}

/// Every message accepted: all of them are handed.
proof fn lemma_handed_all(messages: Seq<Seq<char>>, keep: spec_fn(Seq<char>) -> bool)
    requires
        forall|i: int| 0 <= i < messages.len() ==> keep(#[trigger] messages[i]),
    ensures
        handed_until_stop(messages, keep) == messages.len(),
    decreases messages.len(),
{
    if messages.len() > 0 {
        let rest = messages.drop_first();
        assert forall|i: int| 0 <= i < rest.len() implies keep(#[trigger] rest[i]) by {
            assert(rest[i] == messages[i + 1]);
        }
        assert(keep(messages[0]));
        lemma_handed_all(rest, keep);
    }
}

/// Cuts complete messages out of `input` one after another, the first search
/// starting at `start_checking_from`, and hands each, unescaped, to `action`
/// (which is handed nothing but these messages)
/// together with a flag that starts `true`: cutting goes on while the action
/// leaves the flag set and a complete message remains. `input` is left holding
/// the text after the last message cut. Returns how many messages were cut:
/// the first that many of all complete messages, at least one when there is
/// one. When whether the action keeps the flag set depends only on the
/// message it is handed, the messages are cut up to and including the first
/// on which it clears the flag, or all of them.
pub fn find_and_process_messages<F: FnMut(&str, &mut bool)>(
    input: &mut String,
    start_checking_from: usize,
    endmark: &Endmark,
    mut action: F,
) -> (n: usize)
    requires
        spec_process_messages(
            old(input)@,
            start_checking_from as nat,
            endmark.marker(),
            endmark.escape_marker(),
        ) is Some,
        old(input)@.len() <= usize::MAX,
        forall|f: F, m: &str, keep: &mut bool|
            spec_process_messages(
                old(input)@,
                start_checking_from as nat,
                endmark.marker(),
                endmark.escape_marker(),
            )->Some_0.0.contains(m@) ==> call_requires(f, (m, keep)),
    ensures
        ({
            let all = spec_process_messages(
                old(input)@,
                start_checking_from as nat,
                endmark.marker(),
                endmark.escape_marker(),
            )->Some_0;
            &&& n <= all.0.len()
            &&& all.0.len() > 0 ==> n >= 1
            &&& spec_cut_messages(
                old(input)@,
                start_checking_from as nat,
                endmark.marker(),
                endmark.escape_marker(),
                n as nat,
            ) == Some((all.0.take(n as int), final(input)@))
            &&& n == all.0.len() ==> final(input)@ == all.1
            &&& forall|p: spec_fn(Seq<char>) -> bool|
                #![trigger handed_until_stop(all.0, p)]
                (forall|f: F, m: &str, keep: &mut bool|
                    #![trigger call_ensures(f, (m, keep), ())]
                    call_ensures(f, (m, keep), ()) ==> *final(keep) == p(m@)) ==> n
                    == handed_until_stop(all.0, p)
        }),
{
    let ghost mk = endmark.marker();
    let ghost es = endmark.escape_marker();
    let ghost s0 = input@;
    let ghost all = spec_process_messages(s0, start_checking_from as nat, mk, es)->Some_0;
    let ghost mut done: Seq<Seq<char>> = Seq::empty();
    let mut keep = true;
    let mut start = start_checking_from;
    let mut n: usize = 0;
    proof {
        assert(all.0 =~= done + all.0);
    }
    let mut more = true;
    while keep && more
        invariant
            forall|f: F, m: &str, k: &mut bool| all.0.contains(m@) ==> call_requires(f, (m, k)),
            mk == endmark.marker(),
            es == endmark.escape_marker(),
            all == spec_process_messages(s0, start_checking_from as nat, mk, es)->Some_0,
            n == done.len(),
            n + input@.len() <= s0.len(),
            s0.len() <= usize::MAX,
            n == 0 ==> keep && start == start_checking_from,
            n > 0 ==> start == 0,
            Some(all) == after_messages(done, spec_process_messages(input@, start as nat, mk, es)),
            !more ==> spec_process_messages(input@, start as nat, mk, es) == Some(
                (Seq::<Seq<char>>::empty(), input@),
            ),
            spec_cut_messages(s0, start_checking_from as nat, mk, es, n as nat) == Some(
                (done, input@),
            ),
            forall|p: spec_fn(Seq<char>) -> bool|
                #![trigger handed_until_stop(all.0, p)]
                #![trigger all_accepted(done, p)]
                (forall|f: F, m: &str, k: &mut bool|
                    #![trigger call_ensures(f, (m, k), ())]
                    call_ensures(f, (m, k), ()) ==> *final(k) == p(m@)) ==> {
                    &&& keep ==> all_accepted(done, p)
                    &&& !keep ==> n == handed_until_stop(all.0, p)
                },
        decreases input@.len(), if more { 1int } else { 0int },
    {
        let ghost before = input@;
        let ghost mut done0 = done;
        match cut_next_message(input, start, endmark) {
            Ok(Some(message)) => {
                proof {
                    let (ms, r) = spec_process_messages(input@, 0, mk, es)->Some_0;
                    assert(done.push(message@) + ms =~= done + (seq![message@] + ms));
                    done0 = done;
                    done = done.push(message@);
                    assert(all.0.take(n + 1) =~= done);
                    assert(all.0[n as int] == message@);
                    assert(all.0.contains(message@));
                }
                action(message.as_str(), &mut keep);
                proof {
                    assert forall|p: spec_fn(Seq<char>) -> bool|
                        #![trigger handed_until_stop(all.0, p)]
                        #![trigger all_accepted(done, p)]
                        (forall|f: F, m: &str, k: &mut bool|
                            #![trigger call_ensures(f, (m, k), ())]
                            call_ensures(f, (m, k), ()) ==> *final(k) == p(m@)) implies {
                        &&& keep ==> all_accepted(done, p)
                        &&& !keep ==> n + 1 == handed_until_stop(all.0, p)
                    } by {
                        assert(keep == p(message@));
                        assert(handed_until_stop(all.0, p) == handed_until_stop(all.0, p));
                        assert(all_accepted(done0, p));
                        assert forall|i: int| 0 <= i < n implies p(#[trigger] all.0[i]) by {
                            assert(done0[i] == all.0[i]);
                        }
                        assert(done0.push(message@) == done);
                        assert forall|i: int| 0 <= i < n + 1 && keep implies p(#[trigger] done[i]) by {
                            if i < n {
                                assert(done[i] == done0[i]);
                            }
                        }
                        assert(done[n as int] == all.0[n as int]);
                        lemma_handed_step(all.0, p, n as int);
                    }
                }
                n += 1;
                start = 0;
            },
            _ => {
                more = false;
            },
        }
    }
    proof {
        let (ms, r) = spec_process_messages(input@, start as nat, mk, es)->Some_0;
        assert(all.0 == done + ms);
        assert(all.0.take(n as int) =~= done);
        if n == all.0.len() {
            assert(ms.len() == 0);
            lemma_no_messages_keeps_text(input@, start as nat, mk, es);
        }
        assert forall|p: spec_fn(Seq<char>) -> bool|
            #![trigger handed_until_stop(all.0, p)]
            (forall|f: F, m: &str, k: &mut bool|
                #![trigger call_ensures(f, (m, k), ())]
                call_ensures(f, (m, k), ()) ==> *final(k) == p(m@)) implies n == handed_until_stop(
            all.0,
            p,
        ) by {
            if keep {
                assert(ms.len() == 0);
                assert(handed_until_stop(all.0, p) == handed_until_stop(all.0, p));
                assert(all_accepted(done, p));
                assert forall|i: int| 0 <= i < all.0.len() implies p(#[trigger] all.0[i]) by {
                    assert(done[i] == all.0[i]);
                }
                lemma_handed_all(all.0, p);
            }
        }
    }
    n
}

/// The byte length of one character's UTF-8 encoding.
pub open spec fn char_width(c: char) -> nat {
    if (c as u32) < 0x80 {
        1
    } else if (c as u32) < 0x800 {
        2
    } else if (c as u32) < 0x10000 {
        3
    } else {
        4
    }
}

/// How many leading characters of `s` take exactly `b` bytes in UTF-8, if `b`
/// falls on a character boundary of `s`.
pub open spec fn chars_before_byte(s: Seq<char>, b: int) -> Option<nat>
    decreases s.len(),
{
    if b == 0 {
        Some(0)
    } else if b < 0 || s.len() == 0 {
        None
    } else {
        match chars_before_byte(s.drop_first(), b - char_width(s[0])) {
            Some(j) => Some(j + 1),
            None => None,
        }
    }
}

/// A character takes [`char_width`] bytes in UTF-8.
pub proof fn lemma_char_width(c: char)
    ensures
        utf8_len(seq![c]) == char_width(c),
{
    vstd::utf8::char_is_scalar(c);
    assert(seq![c].drop_first() =~= Seq::<char>::empty());
    assert(encode_utf8(Seq::<char>::empty()) =~= Seq::<u8>::empty());
    assert(encode_utf8(seq![c]) == vstd::utf8::encode_scalar(c as u32) + encode_utf8(
        Seq::<char>::empty(),
    ));
}

/// [`chars_before_byte`] finds the prefix whose UTF-8 encoding is `b` bytes long.
pub proof fn lemma_chars_before_byte(s: Seq<char>, b: int)
    ensures
        chars_before_byte(s, b) matches Some(j) ==> j <= s.len() && utf8_len(s.take(j as int))
            == b,
    decreases s.len(),
{
    if b != 0 && b >= 0 && s.len() > 0 {
        lemma_chars_before_byte(s.drop_first(), b - char_width(s[0]));
        if let Some(j) = chars_before_byte(s, b) {
            let j1 = (j - 1) as nat;
            lemma_char_width(s[0]);
            vstd::utf8::char_is_scalar(s[0]);
            assert(s.take(j as int).drop_first() =~= s.drop_first().take(j1 as int));
            assert(s.take(j as int)[0] == s[0]);
            assert(encode_utf8(seq![s[0]]) =~= vstd::utf8::encode_scalar(s[0] as u32));
        }
    } else if b == 0 {
        assert(s.take(0) =~= Seq::<char>::empty());
    }
}

/// The position, in characters, of byte offset `b` in `chars`, if `b` falls on
/// a character boundary.
pub fn char_index_at_byte(chars: &Vec<char>, b: usize) -> (r: Option<usize>)
    ensures
        match chars_before_byte(chars@, b as int) {
            Some(j) => r == Some(j as usize) && j <= chars@.len(),
            None => r is None,
        },
{
    let mut j: usize = 0;
    let mut rem: usize = b;
    assert(chars@.skip(0) =~= chars@);
    while rem > 0
        invariant
            j <= chars@.len(),
            chars_before_byte(chars@, b as int) == match chars_before_byte(
                chars@.skip(j as int),
                rem as int,
            ) {
                Some(k) => Some((k + j) as nat),
                None => None::<nat>,
            },
        decreases rem,
    {
        if j >= chars.len() {
            assert(chars@.skip(j as int) =~= Seq::<char>::empty());
            return None;
        }
        let c = chars[j];
        let v = c as u32;
        let w: usize = if v < 0x80 {
            1
        } else if v < 0x800 {
            2
        } else if v < 0x10000 {
            3
        } else {
            4
        };
        assert(w == char_width(c));
        assert(chars@.skip(j as int)[0] == c);
        assert(chars@.skip(j as int).drop_first() =~= chars@.skip(j + 1));
        if w > rem {
            assert(chars_before_byte(chars@.skip(j + 1), rem - w) is None);
            return None;
        }
        rem = rem - w;
        j = j + 1;
    }
    Some(j)
}

/// Each byte taken as the character of the same code.
pub open spec fn latin1_chars(bytes: Seq<u8>) -> Seq<char> {
    Seq::new(bytes.len(), |i: int| bytes[i] as char)
}

/// The characters a read of `bytes` gives: each byte taken as the character
/// of the same code, then the prefix whose UTF-8 encoding is as long as the
/// number of bytes read; `None` when that length falls inside a character.
pub open spec fn spec_received_text(bytes: Seq<u8>) -> Option<Seq<char>> {
    let text = latin1_chars(bytes);
    match chars_before_byte(text, bytes.len() as int) {
        Some(k) => Some(text.take(k as int)),
        None => None,
    }
}

/// Exec form of [`spec_received_text`].
pub fn received_text(bytes: &Vec<u8>) -> (r: Option<Vec<char>>)
    ensures
        match spec_received_text(bytes@) {
            Some(t) => r matches Some(v) && v@ == t,
            None => r is None,
        },
        (forall|i: int| 0 <= i < bytes@.len() ==> #[trigger] bytes@[i] < 0x80) ==> (r matches Some(
            v,
        ) && v@ == Seq::new(bytes@.len(), |i: int| bytes@[i] as char)),
{
    proof {
        if forall|i: int| 0 <= i < bytes@.len() ==> #[trigger] bytes@[i] < 0x80 {
            crate::byte_reads::law_ascii_read_kept_whole(bytes@);
        }
    }
    let ghost text = latin1_chars(bytes@);
    let mut chars: Vec<char> = Vec::new();
    let mut i: usize = 0;
    while i < bytes.len()
        invariant
            i <= bytes@.len(),
            text == latin1_chars(bytes@),
            chars@ == text.take(i as int),
        decreases bytes@.len() - i,
    {
        let c = bytes[i] as char;
        chars.push(c);
        i += 1;
        assert(chars@ =~= text.take(i as int));
    }
    assert(chars@ =~= text);
    match char_index_at_byte(&chars, bytes.len()) {
        Some(k) => {
            let mut out: Vec<char> = Vec::new();
            let mut m: usize = 0;
            while m < k
                invariant
                    m <= k,
                    k <= chars@.len(),
                    out@ == chars@.take(m as int),
                decreases k - m,
            {
                out.push(chars[m]);
                m += 1;
                assert(out@ =~= chars@.take(m as int));
            }
            Some(out)
        },
        None => None,
    }
}

/// How a client's buffer and newly received text are split: the whole input
/// is searched right to left, down to just before where the new text starts,
/// for the last end marker; everything up to and including it is cut into
/// messages, the rest stays buffered. `None` when the split cannot complete.
pub open spec fn spec_split_client_input(
    buffer: Seq<char>,
    received: Seq<char>,
    marker: Seq<char>,
    escape: Seq<char>,
) -> Option<(Seq<Seq<char>>, Seq<char>)> {
    let input = buffer + received;
    let l = utf8_len(input);
    let prev = utf8_len(buffer);
    let up_to: nat = if prev >= marker.len() + 1 {
        (prev - (marker.len() + 1)) as nat
    } else {
        0
    };
    match scan_right_to_left(input, l, marker, escape, l, up_to) {
        ScanOutcome::Fault => None,
        ScanOutcome::NotFound => Some((Seq::empty(), input)),
        ScanOutcome::Found(q) => match chars_before_byte(input, q + marker.len()) {
            None => None,
            Some(j) => match spec_process_messages(input.take(j as int), 0, marker, escape) {
                Some((ms, _)) => Some((ms, input.skip(j as int))),
                None => None,
            },
        },
    }
}

/// Exec form of [`spec_split_client_input`]: the complete messages and the
/// text to keep buffered.
pub fn split_client_input(buffer: &str, received: &Vec<char>, endmark: &Endmark) -> (r: Option<
    (Vec<String>, String),
>)
    ensures
        match spec_split_client_input(
            buffer@,
            received@,
            endmark.marker(),
            endmark.escape_marker(),
        ) {
            Some((ms, rest)) => r matches Some((v, b)) && strings_view(v@) == ms && b@ == rest,
            None => r is None,
        },
{
    proof {
        use_type_invariant(endmark);
    }
    let e = chars_of(endmark.string()).len();
    let prev = buffer.as_bytes().len();
    let mut input = chars_of(buffer);
    let mut i: usize = 0;
    let ghost b0 = input@;
    while i < received.len()
        invariant
            i <= received@.len(),
            input@ == b0 + received@.take(i as int),
        decreases received@.len() - i,
    {
        input.push(received[i]);
        i += 1;
        assert(input@ =~= b0 + received@.take(i as int));
    }
    assert(received@.take(received@.len() as int) =~= received@);
    let input_string = string_from_chars(&input);
    let l = input_string.as_str().as_bytes().len();
    assert(input@ =~= buffer@ + received@);
    assert(e == endmark.marker().len());
    let up_to = if prev > e {
        prev - (e + 1)
    } else {
        0
    };
    match find_end_bound_in_chars(&input, l, l, false, up_to, endmark) {
        ScanOutcome::Fault => None,
        ScanOutcome::NotFound => {
            let none: Vec<String> = Vec::new();
            assert(strings_view(none@) =~= Seq::<Seq<char>>::empty());
            Some((none, input_string))
        },
        ScanOutcome::Found(q) => {
            if q > usize::MAX - e {
                proof {
                    lemma_chars_before_byte(input@, q + e);
                    if let Some(j) = chars_before_byte(input@, q + e) {
                        lemma_utf8_len_concat(input@.take(j as int), input@.skip(j as int));
                        assert(input@.take(j as int) + input@.skip(j as int) =~= input@);
                    }
                }
                return None;
            }
            match char_index_at_byte(&input, q + e) {
                None => None,
                Some(j) => {
                    let mut head: Vec<char> = Vec::new();
                    let mut rest: Vec<char> = Vec::new();
                    let mut m: usize = 0;
                    while m < input.len()
                        invariant
                            j <= input@.len(),
                            m <= input@.len(),
                            head@ == input@.take(if m < j {
                                m as int
                            } else {
                                j as int
                            }),
                            rest@ == input@.subrange(j as int, if m < j {
                                j as int
                            } else {
                                m as int
                            }),
                        decreases input@.len() - m,
                    {
                        if m < j {
                            head.push(input[m]);
                        } else {
                            rest.push(input[m]);
                        }
                        m += 1;
                        assert(head@ =~= input@.take(if m < j {
                            m as int
                        } else {
                            j as int
                        }));
                        assert(rest@ =~= input@.subrange(j as int, if m < j {
                            j as int
                        } else {
                            m as int
                        }));
                    }
                    assert(rest@ =~= input@.skip(j as int));
                    let head_string = string_from_chars(&head);
                    match try_process_messages(head_string.as_str(), 0, endmark) {
                        Some((messages, _leftover)) => Some((messages, string_from_chars(&rest))),
                        None => None,
                    }
                },
            }
        },
    }
}

} // verus!
