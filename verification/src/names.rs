//! File names: how segments, events and shard directories are named, and
//! which segments a directory listing shows.

use vstd::prelude::*;
use vstd::string::{StrSliceExecFns, StringExecFns};

verus! {

/// The decimal digit `d`.
pub open spec fn digit(d: nat) -> char {
    (48 + d) as char
}

/// Whether `c` is a decimal digit.
pub open spec fn is_digit(c: char) -> bool {
    '0' <= c <= '9'
}

/// `x` in decimal with `n` digits, with leading zeros.
pub open spec fn decimal(x: nat, n: nat) -> Seq<char>
    decreases n,
{
    if n == 0 {
        Seq::empty()
    } else {
        decimal(x / 10, (n - 1) as nat).push(digit(x % 10))
    }
}

/// `x` in decimal without leading zeros.
pub open spec fn number(x: nat) -> Seq<char>
    decreases x,
{
    if x < 10 {
        seq![digit(x)]
    } else {
        number(x / 10).push(digit(x % 10))
    }
}

/// The number that a string of digits writes.
pub open spec fn value(s: Seq<char>) -> nat
    decreases s.len(),
{
    if s.len() == 0 {
        0
    } else {
        value(s.drop_last()) * 10 + (s.last() as nat - 48) as nat
    }
}

/// The ending of a segment's file name.
pub open spec fn segment_ending() -> Seq<char> {
    seq!['.', 's', 'e', 'g']
}

/// The file name of segment `seg`: its id in 20 digits, then `.seg`.
pub open spec fn segment_name(seg: u64) -> Seq<char> {
    decimal(seg as nat, 20) + segment_ending()
}

/// Whether `s` is made of decimal digits.
pub open spec fn all_digits(s: Seq<char>) -> bool {
    forall|i: int| 0 <= i < s.len() ==> is_digit(#[trigger] s[i])
}

/// The number that one or more digits write, if it fits in 64 bits.
pub open spec fn parse_digits(s: Seq<char>) -> Option<u64> {
    if s.len() == 0 || !all_digits(s) || value(s) > u64::MAX {
        None
    } else {
        Some(value(s) as u64)
    }
}

/// The unsigned number that `s` writes: digits, perhaps after a plus sign.
pub open spec fn parse_number(s: Seq<char>) -> Option<u64> {
    if s.len() > 0 && s[0] == '+' {
        parse_digits(s.skip(1))
    } else {
        parse_digits(s)
    }
}

/// The segment that a file of this name holds: its name is a number with the
/// extension `seg`.
pub open spec fn segment_id(name: Seq<char>) -> Option<u64> {
    if name.len() > 4 && name.skip(name.len() - 4) == segment_ending() {
        parse_number(name.take(name.len() - 4))
    } else {
        None
    }
}

/// The segments that files of these names hold, in the order of the names.
pub open spec fn segment_ids(names: Seq<Seq<char>>) -> Seq<u64>
    decreases names.len(),
{
    if names.len() == 0 {
        Seq::empty()
    } else {
        match segment_id(names.last()) {
            Some(id) => segment_ids(names.drop_last()).push(id),
            None => segment_ids(names.drop_last()),
        }
    }
}

/// The names as sequences of characters.
pub open spec fn names_view(names: Seq<String>) -> Seq<Seq<char>> {
    names.map_values(|name: String| name@)
}

/// Ascending, equal neighbours allowed.
pub open spec fn ascending(ids: Seq<u64>) -> bool {
    forall|i: int, j: int| 0 <= i <= j < ids.len() ==> ids[i] <= ids[j]
}

/// Whether `a` comes no later than `b`.
pub open spec fn no_later() -> spec_fn(u64, u64) -> bool {
    |a: u64, b: u64| a <= b
}

/// The segments among files of these names, ascending.
pub open spec fn listed(names: Seq<Seq<char>>) -> Seq<u64> {
    segment_ids(names).sort_by(no_later())
}

/// What is listed is ascending and holds what the names hold.
pub proof fn lemma_listed(names: Seq<Seq<char>>)
    ensures
        ascending(listed(names)),
        listed(names).to_multiset() =~= segment_ids(names).to_multiset(),
        listed(names).len() == segment_ids(names).len(),
{
    let ids = segment_ids(names);
    assert(vstd::relations::total_ordering(no_later()));
    ids.lemma_sort_by_ensures(no_later());
    let sorted = listed(names);
    assert forall|i: int, j: int| 0 <= i <= j < sorted.len() implies sorted[i] <= sorted[j] by {
        if i < j {
            assert(no_later()(sorted[i], sorted[j]));
        }
    }
    vstd::seq_lib::to_multiset_len(ids);
    vstd::seq_lib::to_multiset_len(sorted);
}

fn push_digit(out: &mut String, d: u64)
    requires
        d < 10,
    ensures
        final(out)@ == old(out)@.push(digit(d as nat)),
{
    proof {
        reveal_strlit("0");
        reveal_strlit("1");
        reveal_strlit("2");
        reveal_strlit("3");
        reveal_strlit("4");
        reveal_strlit("5");
        reveal_strlit("6");
        reveal_strlit("7");
        reveal_strlit("8");
        reveal_strlit("9");
    }
    if d == 0 {
        out.append("0");
    } else if d == 1 {
        out.append("1");
    } else if d == 2 {
        out.append("2");
    } else if d == 3 {
        out.append("3");
    } else if d == 4 {
        out.append("4");
    } else if d == 5 {
        out.append("5");
    } else if d == 6 {
        out.append("6");
    } else if d == 7 {
        out.append("7");
    } else if d == 8 {
        out.append("8");
    } else {
        out.append("9");
    }
    assert(out@ =~= old(out)@.push(digit(d as nat)));
}

fn push_decimal(out: &mut String, x: u64, n: usize)
    ensures
        final(out)@ =~= old(out)@ + decimal(x as nat, n as nat),
    decreases n,
{
    if n > 0 {
        push_decimal(out, x / 10, n - 1);
        push_digit(out, x % 10);
    }
}

fn push_number(out: &mut String, x: u64)
    ensures
        final(out)@ =~= old(out)@ + number(x as nat),
    decreases x,
{
    if x >= 10 {
        push_number(out, x / 10);
    }
    push_digit(out, x % 10);
}

/// The path of segment `seg` within the log directory.
pub fn segment_path(seg: u64) -> (name: String)
    ensures
        name@ == segment_name(seg),
{
    let mut name: String = String::new();
    push_decimal(&mut name, seg, 20);
    name.append(".seg");
    proof {
        reveal_strlit(".seg");
        assert(name@ =~= segment_name(seg));
    }
    name
}

/// The number that characters `from..to` of `name` write, digits alone.
fn read_digits(name: &str, from: usize, to: usize) -> (r: Option<u64>)
    requires
        from <= to <= name@.len(),
    ensures
        r == parse_digits(name@.subrange(from as int, to as int)),
{
    let ghost digits = name@.subrange(from as int, to as int);
    if from == to {
        return None;
    }
    let mut at: usize = from;
    let mut x: u64 = 0;
    assert(digits.take(0) =~= Seq::<char>::empty());
    while at < to
        invariant
            from <= at <= to <= name@.len(),
            from < to,
            digits == name@.subrange(from as int, to as int),
            x as nat == value(digits.take(at - from)),
            all_digits(digits.take(at - from)),
        decreases to - at,
    {
        let c: char = name.get_char(at);
        assert(digits[at - from] == c);
        if c < '0' || c > '9' {
            assert(!is_digit(digits[at - from]));
            return None;
        }
        let d: u64 = c as u64 - 48;
        let ghost next = digits.take(at + 1 - from);
        assert(next.drop_last() =~= digits.take(at - from));
        assert(next.last() == c);
        if x > (u64::MAX - d) / 10 {
            proof {
                lemma_value_grows(digits, at + 1 - from);
            }
            return None;
        }
        x = x * 10 + d;
        at = at + 1;
        assert forall|i: int| 0 <= i < next.len() implies is_digit(#[trigger] next[i]) by {
            if i < next.len() - 1 {
                assert(digits.take(at - 1 - from)[i] == next[i]);
            }
        }
    }
    assert(digits.take(at - from) =~= digits);
    Some(x)
}

/// The number that the first `to` characters of `name` write.
fn read_number(name: &str, to: usize) -> (r: Option<u64>)
    requires
        to <= name@.len(),
    ensures
        r == parse_number(name@.take(to as int)),
{
    let ghost s = name@.take(to as int);
    if to > 0 && name.get_char(0) == '+' {
        assert(name@.subrange(1, to as int) =~= s.skip(1));
        read_digits(name, 1, to)
    } else {
        assert(name@.subrange(0, to as int) =~= s);
        read_digits(name, 0, to)
    }
}

/// More digits write a number that is no smaller.
proof fn lemma_value_grows(s: Seq<char>, n: int)
    requires
        0 <= n <= s.len(),
    ensures
        value(s.take(n)) <= value(s),
    decreases s.len(),
{
    if n == s.len() {
        assert(s.take(n) =~= s);
    } else {
        lemma_value_grows(s.drop_last(), n);
        assert(s.drop_last().take(n) =~= s.take(n));
    }
}

/// The segment that a file of this name holds.
fn read_segment_id(name: &str) -> (r: Option<u64>)
    ensures
        r == segment_id(name@),
{
    let len: usize = name.unicode_len();
    if len <= 4 {
        return None;
    }
    let ending: bool = name.get_char(len - 4) == '.' && name.get_char(len - 3) == 's'
        && name.get_char(len - 2) == 'e' && name.get_char(len - 1) == 'g';
    proof {
        let tail = name@.skip(len - 4);
        assert(tail[0] == name@[len - 4]);
        assert(tail[1] == name@[len - 3]);
        assert(tail[2] == name@[len - 2]);
        assert(tail[3] == name@[len - 1]);
        if ending {
            assert(tail =~= segment_ending());
        }
    }
    if ending {
        read_number(name, len - 4)
    } else {
        None
    }
}

/// Where `id` belongs among the ascending `ids`.
fn rank(ids: &Vec<u64>, id: u64) -> (at: usize)
    requires
        ascending(ids@),
    ensures
        at <= ids@.len(),
        forall|i: int| 0 <= i < at ==> ids@[i] <= id,
        forall|i: int| at <= i < ids@.len() ==> id < ids@[i],
{
    let mut at: usize = ids.len();
    while at > 0 && ids[at - 1] > id
        invariant
            at <= ids@.len(),
            ascending(ids@),
            forall|i: int| at <= i < ids@.len() ==> id < ids@[i],
        decreases at,
    {
        at = at - 1;
    }
    at
}

/// The ids of the segments among the files of a directory, ascending. A file
/// that is not named as a segment is passed over.
pub fn list_segments(names: &Vec<String>) -> (segs: Vec<u64>)
    ensures
        segs@ == listed(names_view(names@)),
{
    let mut segs: Vec<u64> = Vec::new();
    let mut at: usize = 0;
    assert(names_view(names@).take(0) =~= Seq::<Seq<char>>::empty());
    while at < names.len()
        invariant
            at <= names@.len(),
            ascending(segs@),
            segs@.to_multiset() =~= segment_ids(names_view(names@).take(at as int)).to_multiset(),
        decreases names@.len() - at,
    {
        proof {
            let seen = names_view(names@).take(at + 1);
            assert(seen.drop_last() =~= names_view(names@).take(at as int));
            assert(seen.last() == names@[at as int]@);
        }
        if let Some(id) = read_segment_id(names[at].as_str()) {
            let place: usize = rank(&segs, id);
            let ghost before = segs@;
            segs.insert(place, id);
            proof {
                vstd::seq_lib::to_multiset_insert(before, place as int, id);
                vstd::seq_lib::to_multiset_build(
                    segment_ids(names_view(names@).take(at as int)),
                    id,
                );
                assert(segs@ =~= before.insert(place as int, id));
            }
        }
        at = at + 1;
    }
    proof {
        let all = names_view(names@);
        assert(all.take(at as int) =~= all);
        lemma_listed(all);
        assert(vstd::relations::total_ordering(no_later()));
        assert(vstd::relations::sorted_by(listed(all), no_later()));
        vstd::seq_lib::lemma_sorted_unique(segs@, listed(all), no_later());
    }
    segs
}

/// The file name of event `seq`: its number in decimal, then `.cbor`.
pub open spec fn event_name(seq: i64) -> Seq<char> {
    let digits = if seq < 0 {
        seq!['-'] + number((-seq) as nat)
    } else {
        number(seq as nat)
    };
    digits + seq!['.', 'c', 'b', 'o', 'r']
}

/// The path of event `seq` within the events directory.
pub fn event_path(seq: i64) -> (name: String)
    ensures
        name@ == event_name(seq),
{
    let mut name: String = String::new();
    if seq < 0 {
        name.append("-");
        let size: u64 = (-(seq as i128)) as u64;
        push_number(&mut name, size);
    } else {
        push_number(&mut name, seq as u64);
    }
    name.append(".cbor");
    proof {
        reveal_strlit("-");
        reveal_strlit(".cbor");
        assert(name@ =~= event_name(seq));
    }
    name
}

/// The directory of shard `shard`: `shard_` and three digits.
pub open spec fn shard_name(shard: nat) -> Seq<char> {
    seq!['s', 'h', 'a', 'r', 'd', '_'] + decimal(shard, 3)
}

/// The name of a shard's directory has its length.
pub proof fn lemma_shard_name(shard: nat)
    ensures
        shard_name(shard).len() == 9,
{
    lemma_decimal(shard, 3);
}

/// The directory of shard `shard`.
pub fn shard_dir(shard: usize) -> (name: String)
    ensures
        name@ == shard_name(shard as nat),
{
    let mut name: String = String::new();
    name.append("shard_");
    push_decimal(&mut name, shard as u64, 3);
    proof {
        reveal_strlit("shard_");
        assert(name@ =~= shard_name(shard as nat));
    }
    name
}

proof fn lemma_decimal(x: nat, n: nat)
    ensures
        decimal(x, n).len() == n,
        forall|i: int| 0 <= i < n ==> is_digit(#[trigger] decimal(x, n)[i]),
    decreases n,
{
    if n > 0 {
        lemma_decimal(x / 10, (n - 1) as nat);
    }
}

spec fn pow10(n: nat) -> nat
    decreases n,
{
    if n == 0 {
        1
    } else {
        10 * pow10((n - 1) as nat)
    }
}

proof fn lemma_decimal_value(x: nat, n: nat)
    requires
        x < pow10(n),
    ensures
        value(decimal(x, n)) == x,
    decreases n,
{
    if n > 0 {
        lemma_decimal_value(x / 10, (n - 1) as nat);
        assert(decimal(x, n).drop_last() =~= decimal(x / 10, (n - 1) as nat));
    }
}

/// The digits of a shard's directory write its number.
pub proof fn lemma_shard_digits(shard: nat)
    requires
        shard < 1000,
    ensures
        all_digits(shard_name(shard).skip(6)),
        value(shard_name(shard).skip(6)) == shard,
        shard_name(shard).take(6) =~= seq!['s', 'h', 'a', 'r', 'd', '_'],
{
    reveal_with_fuel(pow10, 4);
    lemma_decimal(shard, 3);
    lemma_decimal_value(shard, 3);
    assert(shard_name(shard).skip(6) =~= decimal(shard, 3));
}

/// The file name of a segment has 24 characters: 20 digits that write its
/// number, and `.seg`.
pub proof fn law_segment_name_layout(seg: u64)
    ensures
        segment_name(seg).len() == 24,
        all_digits(segment_name(seg).take(20)),
        value(segment_name(seg).take(20)) == seg,
        segment_name(seg).skip(20) =~= seq!['.', 's', 'e', 'g'],
{
    let digits = decimal(seg as nat, 20);
    lemma_decimal(seg as nat, 20);
    reveal_with_fuel(pow10, 21);
    lemma_decimal_value(seg as nat, 20);
    assert(segment_name(seg).take(20) =~= digits);
}

/// The file name of a segment names that segment.
pub proof fn law_segment_names_read_back(seg: u64)
    ensures
        segment_id(segment_name(seg)) == Some(seg),
{
    let name = segment_name(seg);
    let digits = decimal(seg as nat, 20);
    lemma_decimal(seg as nat, 20);
    reveal_with_fuel(pow10, 21);
    lemma_decimal_value(seg as nat, 20);
    assert(name.skip(name.len() - 4) =~= segment_ending());
    assert(name.take(name.len() - 4) =~= digits);
    assert(is_digit(digits[0]));
}

proof fn lemma_number(x: nat)
    ensures
        number(x).len() > 0,
        forall|i: int| 0 <= i < number(x).len() ==> is_digit(#[trigger] number(x)[i]),
        value(number(x)) == x,
    decreases x,
{
    if x >= 10 {
        lemma_number(x / 10);
        assert(number(x).drop_last() =~= number(x / 10));
    } else {
        assert(number(x).drop_last() =~= Seq::<char>::empty());
        assert(value(number(x).drop_last()) == 0);
    }
}

/// The name of an event's file ends in `.cbor`, behind at least one character.
pub proof fn lemma_event_name(seq: i64)
    ensures
        event_name(seq).len() > 5,
        event_name(seq).skip(event_name(seq).len() - 5) =~= seq!['.', 'c', 'b', 'o', 'r'],
{
    lemma_number(
        (if seq < 0 {
            -seq
        } else {
            seq as int
        }) as nat,
    );
}

/// Events with different numbers are kept in different files.
pub proof fn law_event_names_are_distinct(a: i64, b: i64)
    requires
        a != b,
    ensures
        event_name(a) != event_name(b),
{
    let (x, y) = (event_name(a), event_name(b));
    let size_a = if a < 0 {
        (-a) as nat
    } else {
        a as nat
    };
    let size_b = if b < 0 {
        (-b) as nat
    } else {
        b as nat
    };
    lemma_number(size_a);
    lemma_number(size_b);
    if x == y {
        let digits = x.take(x.len() - 5);
        assert(digits =~= y.take(y.len() - 5));
        assert(is_digit(number(size_a)[0]));
        assert(is_digit(number(size_b)[0]));
        if a < 0 {
            assert(digits =~= seq!['-'] + number(size_a));
            assert(digits[0] == '-');
            assert(digits.skip(1) =~= number(size_a));
        } else {
            assert(digits =~= number(size_a));
        }
        if b < 0 {
            assert(digits =~= seq!['-'] + number(size_b));
            assert(digits[0] == '-');
            assert(digits.skip(1) =~= number(size_b));
        } else {
            assert(digits =~= number(size_b));
        }
    }
}

/// Every shard below a thousand has its own directory.
pub proof fn law_shard_names_are_distinct(a: nat, b: nat)
    requires
        a < 1000,
        b < 1000,
        a != b,
    ensures
        shard_name(a) != shard_name(b),
{
    reveal_with_fuel(pow10, 4);
    lemma_decimal(a, 3);
    lemma_decimal(b, 3);
    lemma_decimal_value(a, 3);
    lemma_decimal_value(b, 3);
    assert(shard_name(a).skip(6) =~= decimal(a, 3));
    assert(shard_name(b).skip(6) =~= decimal(b, 3));
}

proof fn lemma_number_lead(x: nat)
    ensures
        number(x)[0] == '0' ==> x == 0 && number(x).len() == 1,
    decreases x,
{
    lemma_number(x);
    if x >= 10 {
        lemma_number_lead(x / 10);
        lemma_number(x / 10);
        assert(number(x)[0] == number(x / 10)[0]);
    }
}

/// The file name of an event writes its number in decimal, with a minus sign if
/// it is negative and without leading zeros, then `.cbor`.
pub proof fn law_event_name_layout(seq: i64)
    ensures
        ({
            let name = event_name(seq);
            let stem = name.take(name.len() - 5);
            let digits = if seq < 0 {
                stem.skip(1)
            } else {
                stem
            };
            &&& name.len() > 5
            &&& name.skip(name.len() - 5) =~= seq!['.', 'c', 'b', 'o', 'r']
            &&& seq < 0 ==> stem[0] == '-'
            &&& digits.len() > 0
            &&& all_digits(digits)
            &&& value(digits) == if seq < 0 {
                -seq
            } else {
                seq as int
            }
            &&& digits[0] == '0' ==> digits.len() == 1
        }),
{
    let size = (if seq < 0 {
        -seq
    } else {
        seq as int
    }) as nat;
    lemma_event_name(seq);
    lemma_number(size);
    lemma_number_lead(size);
    let name = event_name(seq);
    let stem = name.take(name.len() - 5);
    if seq < 0 {
        assert(stem =~= seq!['-'] + number(size));
        assert(stem.skip(1) =~= number(size));
    } else {
        assert(stem =~= number(size));
    }
}

/// Only files that are named as segments are taken for segments: a number, at
/// most with a plus sign before it, and `.seg`.
pub proof fn law_only_segment_files_are_segments(name: Seq<char>)
    ensures
        segment_id(name) matches Some(id) ==> {
            let stem = name.take(name.len() - 4);
            let digits = if stem[0] == '+' {
                stem.skip(1)
            } else {
                stem
            };
            &&& name.len() > 4
            &&& name.skip(name.len() - 4) =~= seq!['.', 's', 'e', 'g']
            &&& digits.len() > 0
            &&& all_digits(digits)
            &&& value(digits) == id
        },
{
}

/// The segments of a directory are listed in ascending order, and a segment is
/// listed if and only if a file is named for it.
pub proof fn law_every_segment_is_listed(names: Seq<Seq<char>>, id: u64)
    ensures
        ascending(listed(names)),
        listed(names).contains(id) <==> exists|i: int|
            0 <= i < names.len() && segment_id(#[trigger] names[i]) == Some(id),
{
    lemma_listed(names);
    lemma_segment_ids(names, id);
    let (ids, sorted) = (segment_ids(names), listed(names));
    broadcast use vstd::seq_lib::group_to_multiset_ensures;

    assert(sorted.contains(id) == (sorted.to_multiset().count(id) > 0));
    assert(ids.contains(id) == (ids.to_multiset().count(id) > 0));
}

proof fn lemma_segment_ids(names: Seq<Seq<char>>, id: u64)
    ensures
        segment_ids(names).contains(id) <==> exists|i: int|
            0 <= i < names.len() && segment_id(#[trigger] names[i]) == Some(id),
    decreases names.len(),
{
    if names.len() > 0 {
        let front = names.drop_last();
        lemma_segment_ids(front, id);
        let (ids, before) = (segment_ids(names), segment_ids(front));
        if before.contains(id) {
            let i = choose|i: int|
                0 <= i < front.len() && segment_id(#[trigger] front[i]) == Some(id);
            assert(segment_id(names[i]) == Some(id));
            let j = choose|j: int| 0 <= j < before.len() && before[j] == id;
            assert(ids[j] == id);
        }
        if segment_id(names.last()) == Some(id) {
            assert(segment_id(names[names.len() - 1]) == Some(id));
            assert(ids[ids.len() - 1] == id);
        }
        if exists|i: int| 0 <= i < names.len() && segment_id(#[trigger] names[i]) == Some(id) {
            let i = choose|i: int|
                0 <= i < names.len() && segment_id(#[trigger] names[i]) == Some(id);
            if i < front.len() {
                assert(segment_id(front[i]) == Some(id));
            }
        }
        if ids.contains(id) {
            let j = choose|j: int| 0 <= j < ids.len() && ids[j] == id;
            if j < before.len() {
                assert(before[j] == id);
            }
        }
    }
}

} // verus!
