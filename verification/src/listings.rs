//! What names, numbers and lists stand for.

use crate::binary64::Binary64;
use crate::config::{
    configured_target, integers, listed, overrides_of, ConfigData, GameValue, TargetFps,
};
use crate::cpu_info::{policy_number, InfoError};
use crate::sorting::ascending;
use crate::text::{
    after_bytes, decimal, decimal_digit, decimal_value, lemma_decimal_digits, lemma_up_to, read_i32,
    read_isize, read_u64, read_usize, signed_number, trimmed, trimmed_end, trimmed_start,
    unsigned_number, white_space, words,
};
use vstd::prelude::*;

verus! {

/// Of the plain characters, white space is the blank and the tab, the line feed and the three
/// controls that follow it, and nothing else.
pub proof fn lemma_plain_white_space(c: char)
    requires
        c <= '\u{7f}',
    ensures
        white_space(c) <==> c == ' ' || c == '\t' || c == '\n' || c == '\u{b}' || c == '\u{c}' || c
            == '\r',
{
}

/// A text is made of white space alone.
pub open spec fn blank(s: Seq<char>) -> bool {
    forall|i: int| 0 <= i < s.len() ==> white_space(#[trigger] s[i])
}

proof fn lemma_trimmed_start(s: Seq<char>) -> (pre: Seq<char>)
    ensures
        blank(pre),
        s == pre + trimmed_start(s),
        trimmed_start(s).len() > 0 ==> !white_space(trimmed_start(s)[0]),
    decreases s.len(),
{
    if s.len() > 0 && white_space(s[0]) {
        let p = lemma_trimmed_start(s.drop_first());
        let pre = seq![s[0]] + p;
        assert(seq![s[0]] + s.drop_first() == s);
        assert(pre + trimmed_start(s) == seq![s[0]] + (p + trimmed_start(s)));
        assert forall|i: int| 0 <= i < pre.len() implies white_space(#[trigger] pre[i]) by {
            if i > 0 {
                assert(p[i - 1] == pre[i]);
            }
        }
        pre
    } else {
        assert(Seq::<char>::empty() + s == s);
        Seq::empty()
    }
}

proof fn lemma_trimmed_end(s: Seq<char>) -> (post: Seq<char>)
    ensures
        blank(post),
        s == trimmed_end(s) + post,
        trimmed_end(s).len() > 0 ==> !white_space(trimmed_end(s).last()),
    decreases s.len(),
{
    if s.len() > 0 && white_space(s.last()) {
        let p = lemma_trimmed_end(s.drop_last());
        let post = p.push(s.last());
        assert(s.drop_last().push(s.last()) == s);
        assert(trimmed_end(s) + post == (trimmed_end(s) + p).push(s.last()));
        post
    } else {
        assert(s + Seq::<char>::empty() == s);
        Seq::empty()
    }
}

/// A trimmed text neither starts nor ends with white space, and only white space was around it.
pub proof fn lemma_trimmed(s: Seq<char>)
    ensures
        exists|pre: Seq<char>, post: Seq<char>|
            #![trigger blank(pre), blank(post)]
            blank(pre) && blank(post) && s == pre + trimmed(s) + post,
        trimmed(s).len() > 0 ==> !white_space(trimmed(s)[0]) && !white_space(trimmed(s).last()),
{
    let pre = lemma_trimmed_start(s);
    let post = lemma_trimmed_end(trimmed_start(s));
    assert(pre + trimmed(s) + post == pre + (trimmed(s) + post));
    assert(blank(pre) && blank(post));
    if trimmed(s).len() > 0 {
        assert(trimmed_start(s)[0] == trimmed(s)[0]);
    }
}

/// The words of two texts with white space between them are those of the first and then those of
/// the second.
pub proof fn lemma_words_join(a: Seq<char>, gap: char, b: Seq<char>)
    requires
        white_space(gap),
    ensures
        words(a + seq![gap] + b) == words(a) + words(b),
    decreases b.len(),
{
    let all = a + seq![gap] + b;
    if b.len() == 0 {
        assert(all.drop_last() == a);
        assert(all.last() == gap);
        assert(words(a) + words(b) == words(a));
    } else {
        let rest = b.drop_last();
        lemma_words_join(a, gap, rest);
        assert(all.drop_last() == a + seq![gap] + rest);
        assert(all.last() == b.last());
        let before = words(rest);
        let c = b.last();
        if b.len() == 1 {
            assert(all[all.len() - 2] == gap);
        } else {
            assert(all[all.len() - 2] == b[b.len() - 2]);
        }
        if !white_space(c) {
            if b.len() == 1 || white_space(b[b.len() - 2]) {
                assert((words(a) + before).push(seq![c]) == words(a) + before.push(seq![c]));
            } else {
                lemma_words_end(rest);
                let joined = words(a) + before;
                assert(joined.last() == before.last());
                assert(joined.drop_last() == words(a) + before.drop_last());
                assert(joined.drop_last().push(joined.last().push(c)) == words(a)
                    + before.drop_last().push(before.last().push(c)));
            }
        }
    }
}

proof fn lemma_words_end(s: Seq<char>)
    requires
        s.len() > 0,
        !white_space(s.last()),
    ensures
        words(s).len() > 0,
{
}

/// A text without white space is one word, and the empty text is none.
pub proof fn lemma_one_word(s: Seq<char>)
    requires
        forall|i: int| 0 <= i < s.len() ==> !white_space(#[trigger] s[i]),
    ensures
        s.len() > 0 ==> words(s) == seq![s],
        s.len() == 0 ==> words(s).len() == 0,
    decreases s.len(),
{
    if s.len() > 0 {
        let rest = s.drop_last();
        assert forall|i: int| 0 <= i < rest.len() implies !white_space(#[trigger] rest[i]) by {
            assert(rest[i] == s[i]);
        }
        lemma_one_word(rest);
        assert(!white_space(s[s.len() - 1]));
        if s.len() == 1 {
            assert(words(rest) == Seq::<Seq<char>>::empty());
            assert(s == seq![s.last()]);
            assert(words(s) == seq![s]);
        } else {
            assert(!white_space(s[s.len() - 2]));
            assert(words(rest) == seq![rest]);
            assert(rest.push(s.last()) == s);
            assert(words(s) == seq![s]);
        }
    }
}

/// A zero in front of a number does not count, and one behind it makes the number tenfold.
pub proof fn lemma_zeros(s: Seq<char>)
    requires
        s.len() > 0,
    ensures
        decimal_value(seq!['0'] + s) == decimal_value(s),
        decimal_value(s.push('0')) == 10 * decimal_value(s),
    decreases s.len(),
{
    let t = seq!['0'] + s;
    assert(s.push('0').drop_last() == s);
    assert(t.last() == s.last());
    assert(t.drop_last() == seq!['0'] + s.drop_last());
    if s.len() > 1 {
        lemma_zeros(s.drop_last());
    } else {
        assert(t.drop_last() == seq!['0']);
        assert(seq!['0'].drop_last() == Seq::<char>::empty());
        assert(decimal_value(Seq::<char>::empty()) == 0);
        assert(decimal_value(seq!['0']) == 0);
        assert(s.drop_last() == Seq::<char>::empty());
    }
}

/// What stands for a number does so too behind a plus sign, and for its opposite behind a minus
/// sign. The empty text and a sign alone stand for none.
pub proof fn lemma_signs(n: nat)
    ensures
        unsigned_number(decimal(n)) == Some(n),
        unsigned_number(seq!['+'] + decimal(n)) == Some(n),
        signed_number(decimal(n)) == Some(n as int),
        signed_number(seq!['+'] + decimal(n)) == Some(n as int),
        signed_number(seq!['-'] + decimal(n)) == Some(-(n as int)),
        unsigned_number(seq!['-'] + decimal(n)) is None,
        signed_number(Seq::empty()) is None,
        signed_number(seq!['-']) is None,
        signed_number(seq!['+']) is None,
{
    let s = decimal(n);
    lemma_decimal_digits(n);
    assert(decimal_digit(s[0]));
    assert((seq!['+'] + s).drop_first() == s);
    assert((seq!['-'] + s).drop_first() == s);
    assert((seq!['-'] + s)[0] == '-');
    assert(seq!['-'].drop_first() == Seq::<char>::empty());
    assert(seq!['+'].drop_first() == Seq::<char>::empty());
}

/// A number is read as one of a type if and only if the type has it.
pub proof fn lemma_read_range(n: nat)
    ensures
        read_u64(decimal(n)) == (if n < 0x1_0000_0000_0000_0000 {
            Some(n as u64)
        } else {
            None
        }),
        read_i32(decimal(n)) == (if n < 0x8000_0000 {
            Some(n as i32)
        } else {
            None
        }),
        read_i32(seq!['-'] + decimal(n)) == (if n <= 0x8000_0000 {
            Some((-n) as i32)
        } else {
            None
        }),
        read_usize(decimal(n)) is Some <==> n <= usize::MAX,
        read_usize(decimal(n)) matches Some(m) ==> m == n,
        read_isize(decimal(n)) is Some <==> n <= isize::MAX,
        read_isize(decimal(n)) matches Some(m) ==> m == n,
        read_isize(seq!['-'] + decimal(n)) is Some <==> -n >= isize::MIN,
        read_isize(seq!['-'] + decimal(n)) matches Some(m) ==> m == -n,
{
    lemma_signs(n);
}

proof fn lemma_after_plain(a: Seq<char>, b: Seq<char>)
    requires
        forall|i: int| 0 <= i < a.len() ==> #[trigger] a[i] <= '\u{7f}',
    ensures
        after_bytes(a + b, a.len()) == Some(b),
    decreases a.len(),
{
    let all = a + b;
    if a.len() == 0 {
        assert(all == b);
    } else {
        let rest = a.drop_first();
        assert(all[0] == a[0]);
        assert(all.drop_first() == rest + b);
        assert forall|i: int| 0 <= i < rest.len() implies #[trigger] rest[i] <= '\u{7f}' by {
            assert(rest[i] == a[i + 1]);
        }
        lemma_after_plain(rest, b);
    }
}

/// The directory of a policy is named by six letters and its number, which is read back from it.
pub proof fn lemma_policy_named(letters: Seq<char>, n: i32)
    requires
        letters.len() == 6,
        forall|i: int| 0 <= i < letters.len() ==> #[trigger] letters[i] <= '\u{7f}',
    ensures
        n >= 0 ==> policy_number(letters + decimal(n as nat)) == Ok::<i32, InfoError>(n),
        policy_number(letters) == Err::<i32, InfoError>(InfoError::PolicyNotANumber),
{
    lemma_after_plain(letters, Seq::empty());
    assert(letters + Seq::<char>::empty() == letters);
    lemma_signs(0);
    if n >= 0 {
        lemma_after_plain(letters, decimal(n as nat));
        lemma_signs(n as nat);
    }
}

/// A name of fewer than six bytes is not that of a policy.
pub proof fn lemma_policy_unnamed(name: Seq<char>)
    requires
        name.len() < 6,
        forall|i: int| 0 <= i < name.len() ==> #[trigger] name[i] <= '\u{7f}',
    ensures
        policy_number(name) == Err::<i32, InfoError>(InfoError::InvalidPolicyFormat),
{
    lemma_too_short(name, 6);
}

proof fn lemma_too_short(s: Seq<char>, n: nat)
    requires
        s.len() < n,
        forall|i: int| 0 <= i < s.len() ==> #[trigger] s[i] <= '\u{7f}',
    ensures
        after_bytes(s, n) is None,
    decreases s.len(),
{
    if s.len() > 0 {
        let rest = s.drop_first();
        assert(s[0] <= '\u{7f}');
        assert forall|i: int| 0 <= i < rest.len() implies #[trigger] rest[i] <= '\u{7f}' by {
            assert(rest[i] == s[i + 1]);
        }
        lemma_too_short(rest, (n - 1) as nat);
    }
}

/// The integers of two lists after one another are those of the first and those of the second;
/// what is no integer is left out, and an integer counts by its lower 32 bits, which are all of it
/// where it fits.
pub proof fn lemma_integers_join(first: Seq<Option<i64>>, second: Seq<Option<i64>>)
    ensures
        integers(first + second) == integers(first) + integers(second),
        first.len() == 0 ==> integers(first).len() == 0,
        first.len() == 1 && first[0] is None ==> integers(first).len() == 0,
        first.len() == 1 && first[0] is Some ==> {
            let i = first[0]->0;
            &&& integers(first).len() == 1
            &&& integers(first)[0] as i64 == i & 0xffff_ffff
            &&& 0 <= i <= u32::MAX ==> integers(first)[0] == i
        },
    decreases second.len(),
{
    let all = first + second;
    if second.len() == 0 {
        assert(all == first);
        assert(integers(first) + integers(second) == integers(first));
    } else {
        lemma_integers_join(first, second.drop_last());
        assert(all.drop_last() == first + second.drop_last());
        assert(all.last() == second.last());
        if let Some(i) = second.last() {
            let rest = integers(second.drop_last());
            let n = i as u32;
            assert((integers(first) + rest).push(n) == integers(first) + rest.push(n));
        }
    }
    if first.len() == 1 {
        assert(first.drop_last() == Seq::<Option<i64>>::empty());
        assert(integers(first.drop_last()) == Seq::<u32>::empty());
        if let Some(i) = first[0] {
            assert(first.last() == first[0]);
            assert(integers(first)[0] == i as u32);
            assert((i as u32) as i64 == i & 0xffff_ffff) by (bit_vector);
        }
    }
}

/// What the configuration says of a package that a list of games names, or that is only in the
/// other list, or in none. A list of frame rates comes back in order, each of its integers as often
/// as it stands there.
pub proof fn lemma_configured(data: ConfigData, pkg: Seq<char>, r: Option<TargetFps>)
    requires
        !pkg.contains(':'),
        configured_target(data, pkg, r),
    ensures
        !listed(data, pkg) ==> r is None,
        listed(data, pkg) && r is None ==> data.game_list@.contains_key(pkg) && (
        data.game_list@[pkg] is Other || data.game_list@[pkg] is String),
        !data.game_list@.contains_key(pkg) && data.scene_game_list@.contains(pkg) ==> {
            &&& r matches Some(TargetFps::Array(v))
            &&& v@ == seq![30u32, 45, 60, 90, 120, 144]
        },
        data.game_list@.contains_key(pkg) ==> match data.game_list@[pkg] {
            GameValue::Integer(i) => {
                &&& r matches Some(TargetFps::Value(t))
                &&& t as i64 == i & 0xffff_ffff
                &&& 0 <= i <= u32::MAX ==> t == i
            },
            GameValue::String(s) => (s@ == "auto"@ ==> (r matches Some(TargetFps::Array(v)) && v@
                == seq![30u32, 45, 60, 90, 120, 144])) && (s@ != "auto"@ ==> r is None),
            GameValue::Other => r is None,
            GameValue::Array(list) => {
                &&& r matches Some(TargetFps::Array(v))
                &&& ascending(v@)
                &&& forall|t: u32| #[trigger]
                    v@.to_multiset().count(t) == integers(list@).to_multiset().count(t)
                &&& forall|t: u32| #[trigger] v@.contains(t) <==> integers(list@).contains(t)
            },
        },
{
    lemma_up_to(pkg, Seq::empty(), ':');
    if data.game_list@.contains_key(pkg) {
        if let GameValue::Integer(i) = data.game_list@[pkg] {
            assert((i as u32) as i64 == i & 0xffff_ffff) by (bit_vector);
        }
        if let GameValue::Array(list) = data.game_list@[pkg] {
            if let Some(TargetFps::Array(v)) = r {
                let w = integers(list@);
                v@.to_multiset_ensures();
                w.to_multiset_ensures();
                assert forall|t: u32| #[trigger] v@.contains(t) <==> w.contains(t) by {
                    assert(v@.to_multiset().count(t) == w.to_multiset().count(t));
                }
            }
        }
    }
}

/// Of the margins listed for a target the last one counts, and a target that is not listed has
/// none.
pub proof fn lemma_overrides(list: Seq<(String, Binary64)>, n: nat, key: Seq<char>)
    requires
        n <= list.len(),
    ensures
        overrides_of(list, n).contains_key(key) <==> exists|i: int|
            0 <= i < n && (#[trigger] list[i]).0@ == key,
        forall|i: int|
            0 <= i < n && (#[trigger] list[i]).0@ == key && (forall|j: int|
                i < j < n ==> (#[trigger] list[j]).0@ != key) ==> overrides_of(list, n)[key]
                == list[i].1,
    decreases n,
{
    if n > 0 {
        let m = (n - 1) as nat;
        lemma_overrides(list, m, key);
        if list[n - 1].0@ != key {
            if overrides_of(list, m).contains_key(key) {
                let i = choose|i: int| 0 <= i < m && (#[trigger] list[i]).0@ == key;
                assert(list[i].0@ == key);
            }
        }
    }
}

} // verus!
