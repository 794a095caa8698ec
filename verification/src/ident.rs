//! The naming scheme of the decision variables.
//!
//! A commitment is named by its index in decimal, a plan by the commitment's
//! index and its own joined by `-`, an occurrence by the plan's name, `-` and the
//! identity of the service call. Decoding splits a name at its separators again.

use vstd::prelude::*;
use vstd::string::*;

verus! {

/// The separator between the segments of a key.
pub open spec fn is_sep(c: char) -> bool {
    c == '-'
}

/// No character of `s` is the separator.
pub open spec fn sep_free(s: Seq<char>) -> bool {
    forall|k: int| 0 <= k < s.len() ==> !is_sep(#[trigger] s[k])
}

/// `s` can name a solver variable: it holds no NUL character.
pub open spec fn nameable(s: Seq<char>) -> bool {
    forall|k: int| 0 <= k < s.len() ==> #[trigger] s[k] != '\0'
}

/// `s` has at least one separator.
pub open spec fn has_sep(s: Seq<char>) -> bool {
    first_sep(s) < s.len()
}

/// The decimal digit for `d`, for `d` below ten.
pub open spec fn digit_char(d: nat) -> char {
    if d == 0 {
        '0'
    } else if d == 1 {
        '1'
    } else if d == 2 {
        '2'
    } else if d == 3 {
        '3'
    } else if d == 4 {
        '4'
    } else if d == 5 {
        '5'
    } else if d == 6 {
        '6'
    } else if d == 7 {
        '7'
    } else if d == 8 {
        '8'
    } else {
        '9'
    }
}

/// `n` written in decimal, without leading zeros.
pub open spec fn decimal(n: nat) -> Seq<char>
    decreases n,
{
    if n < 10 {
        seq![digit_char(n)]
    } else {
        decimal(n / 10).push(digit_char(n % 10))
    }
}

/// Name of the commitment with index `i`.
pub open spec fn commit_key(i: nat) -> Seq<char> {
    decimal(i)
}

/// Name of plan `j` of commitment `i`.
pub open spec fn plan_key(i: nat, j: nat) -> Seq<char> {
    decimal(i) + seq!['-'] + decimal(j)
}

/// Name of the occurrence of the service call `id` in plan `j` of commitment `i`.
pub open spec fn occurrence_key(i: nat, j: nat, id: Seq<char>) -> Seq<char> {
    plan_key(i, j) + seq!['-'] + id
}

/// Number of characters before the first separator of `s`; `s.len()` when it has none.
pub open spec fn first_sep(s: Seq<char>) -> nat
    decreases s.len(),
{
    if s.len() == 0 || is_sep(s[0]) {
        0
    } else {
        1 + first_sep(s.drop_first())
    }
}

/// Position of the last separator of `s`; 0 when it has none.
pub open spec fn last_sep(s: Seq<char>) -> nat
    decreases s.len(),
{
    if s.len() == 0 {
        0
    } else if is_sep(s.last()) {
        (s.len() - 1) as nat
    } else {
        last_sep(s.drop_last())
    }
}

/// The first segment of `s`.
pub open spec fn head(s: Seq<char>) -> Seq<char> {
    s.take(first_sep(s) as int)
}

/// What follows the first separator of `s`; empty when it has none.
pub open spec fn tail(s: Seq<char>) -> Seq<char> {
    if has_sep(s) {
        s.skip(first_sep(s) as int + 1)
    } else {
        Seq::empty()
    }
}

/// The commitment's name inside a plan's or an occurrence's name: its first segment.
pub open spec fn commit_prefix(name: Seq<char>) -> Seq<char> {
    head(name)
}

/// The plan's name inside an occurrence's name: its first two segments.
pub open spec fn plan_prefix(name: Seq<char>) -> Seq<char> {
    head(name) + seq!['-'] + head(tail(name))
}

/// The match key of an occurrence's name: what follows its second separator.
pub open spec fn match_key(name: Seq<char>) -> Seq<char> {
    tail(tail(name))
}

/// The price key of an identity: the identity without its last segment.
pub open spec fn price_key(id: Seq<char>) -> Seq<char> {
    id.take(last_sep(id) as int)
}

/// `first_sep` is the one position up to which nothing is a separator and at
/// which the sequence ends or has one.
pub proof fn lemma_first_sep_is(s: Seq<char>, n: int)
    requires
        0 <= n <= s.len(),
        forall|k: int| 0 <= k < n ==> !is_sep(#[trigger] s[k]),
        n == s.len() || is_sep(s[n]),
    ensures
        first_sep(s) == n,
    decreases n,
{
    if n > 0 {
        let t = s.drop_first();
        assert forall|k: int| 0 <= k < n - 1 implies !is_sep(#[trigger] t[k]) by {
            assert(t[k] == s[k + 1]);
        }
        lemma_first_sep_is(t, n - 1);
    }
}

/// What `first_sep` returns: a position within the sequence, before which
/// nothing is a separator and at which one stands unless the sequence ends.
pub proof fn lemma_first_sep_bounds(s: Seq<char>)
    ensures
        first_sep(s) <= s.len(),
        forall|k: int| 0 <= k < first_sep(s) ==> !is_sep(#[trigger] s[k]),
        first_sep(s) < s.len() ==> is_sep(s[first_sep(s) as int]),
    decreases s.len(),
{
    if s.len() == 0 || is_sep(s[0]) {
    } else {
        let t = s.drop_first();
        lemma_first_sep_bounds(t);
        assert forall|k: int| 0 <= k < first_sep(s) implies !is_sep(#[trigger] s[k]) by {
            if k > 0 {
                assert(s[k] == t[k - 1]);
            }
        }
        if first_sep(s) < s.len() {
            assert(s[first_sep(s) as int] == t[first_sep(t) as int]);
        }
    }
}

/// What `last_sep` returns: where the last separator stands, if there is one.
pub proof fn lemma_last_sep_bounds(s: Seq<char>)
    ensures
        last_sep(s) <= s.len(),
        forall|k: int| last_sep(s) < k < s.len() ==> !is_sep(#[trigger] s[k]),
        !sep_free(s) ==> last_sep(s) < s.len() && is_sep(s[last_sep(s) as int]),
        sep_free(s) ==> last_sep(s) == 0,
    decreases s.len(),
{
    if s.len() == 0 {
    } else if is_sep(s.last()) {
    } else {
        let t = s.drop_last();
        lemma_last_sep_bounds(t);
        if !sep_free(s) {
            let k = choose|k: int| 0 <= k < s.len() && is_sep(#[trigger] s[k]);
            assert(t[k] == s[k]);
            assert(!sep_free(t));
            assert(s[last_sep(s) as int] == t[last_sep(t) as int]);
        } else {
            assert forall|k: int| 0 <= k < t.len() implies !is_sep(#[trigger] t[k]) by {
                assert(t[k] == s[k]);
            }
        }
        assert forall|k: int| last_sep(s) < k < s.len() implies !is_sep(#[trigger] s[k]) by {
            if k < t.len() {
                assert(s[k] == t[k]);
            }
        }
    }
}

/// A name made of a separator-free segment, a separator and a rest splits
/// into that segment and that rest.
pub proof fn lemma_split_joined(a: Seq<char>, b: Seq<char>)
    requires
        sep_free(a),
    ensures
        first_sep(a + seq!['-'] + b) == a.len(),
        has_sep(a + seq!['-'] + b),
        head(a + seq!['-'] + b) == a,
        tail(a + seq!['-'] + b) == b,
{
    let s = a + seq!['-'] + b;
    assert forall|k: int| 0 <= k < a.len() implies !is_sep(#[trigger] s[k]) by {
        assert(s[k] == a[k]);
    }
    assert(s[a.len() as int] == '-');
    lemma_first_sep_is(s, a.len() as int);
    assert(s.take(a.len() as int) =~= a);
    assert(s.skip(a.len() as int + 1) =~= b);
}

/// A separator-free name is its own first segment, and nothing follows.
pub proof fn lemma_split_single(a: Seq<char>)
    requires
        sep_free(a),
    ensures
        first_sep(a) == a.len(),
        !has_sep(a),
        head(a) == a,
        tail(a) == Seq::<char>::empty(),
{
    lemma_first_sep_is(a, a.len() as int);
    assert(a.take(a.len() as int) =~= a);
}

/// A decimal numeral is not empty and holds digits only: no separator, no NUL.
pub proof fn lemma_decimal_digits(n: nat)
    ensures
        decimal(n).len() >= 1,
        n >= 10 ==> decimal(n).len() >= 2,
        sep_free(decimal(n)),
        nameable(decimal(n)),
    decreases n,
{
    if n >= 10 {
        lemma_decimal_digits(n / 10);
    }
}

/// Two numbers with the same decimal numeral are equal.
pub proof fn lemma_decimal_injective(a: nat, b: nat)
    requires
        decimal(a) == decimal(b),
    ensures
        a == b,
    decreases a,
{
    lemma_decimal_digits(a);
    lemma_decimal_digits(b);
    if a < 10 || b < 10 {
        assert(decimal(a).len() == 1);
        assert(a < 10 && b < 10);
        assert(decimal(a)[0] == digit_char(a));
        assert(decimal(b)[0] == digit_char(b));
    } else {
        let da = decimal(a / 10);
        let db = decimal(b / 10);
        assert(decimal(a).drop_last() =~= da);
        assert(decimal(b).drop_last() =~= db);
        assert(decimal(a).last() == digit_char(a % 10));
        assert(decimal(b).last() == digit_char(b % 10));
        lemma_decimal_injective(a / 10, b / 10);
    }
}

/// Decoding a plan's name gives back the commitment's name, and a plan's name
/// has one separator.
pub proof fn lemma_plan_key_decodes(i: nat, j: nat)
    ensures
        commit_prefix(plan_key(i, j)) == commit_key(i),
        tail(plan_key(i, j)) == decimal(j),
        has_sep(plan_key(i, j)),
        nameable(plan_key(i, j)),
{
    lemma_decimal_digits(i);
    lemma_decimal_digits(j);
    lemma_split_joined(decimal(i), decimal(j));
}

/// Decoding an occurrence's name gives back the commitment's name, the plan's
/// name and the identity.
pub proof fn lemma_occurrence_key_decodes(i: nat, j: nat, id: Seq<char>)
    ensures
        commit_prefix(occurrence_key(i, j, id)) == commit_key(i),
        plan_prefix(occurrence_key(i, j, id)) == plan_key(i, j),
        match_key(occurrence_key(i, j, id)) == id,
        has_sep(occurrence_key(i, j, id)),
        has_sep(tail(occurrence_key(i, j, id))),
        nameable(id) ==> nameable(occurrence_key(i, j, id)),
{
    lemma_decimal_digits(i);
    lemma_decimal_digits(j);
    let rest = decimal(j) + seq!['-'] + id;
    assert(occurrence_key(i, j, id) =~= decimal(i) + seq!['-'] + rest);
    lemma_split_joined(decimal(i), rest);
    lemma_split_joined(decimal(j), id);
}

/// The names of two commitments are equal only if the commitments are.
pub proof fn lemma_commit_key_injective(i: nat, a: nat)
    requires
        commit_key(i) == commit_key(a),
    ensures
        i == a,
{
    lemma_decimal_injective(i, a);
}

/// The names of two plans are equal only if the plans are.
pub proof fn lemma_plan_key_injective(i: nat, j: nat, a: nat, b: nat)
    requires
        plan_key(i, j) == plan_key(a, b),
    ensures
        i == a,
        j == b,
{
    lemma_plan_key_decodes(i, j);
    lemma_plan_key_decodes(a, b);
    lemma_decimal_injective(i, a);
    lemma_decimal_injective(j, b);
}

/// The names of two occurrences are equal only if they stand in the same
/// plan and have the same identity.
pub proof fn lemma_occurrence_key_injective(
    i: nat,
    j: nat,
    id: Seq<char>,
    a: nat,
    b: nat,
    other: Seq<char>,
)
    requires
        occurrence_key(i, j, id) == occurrence_key(a, b, other),
    ensures
        i == a,
        j == b,
        id == other,
{
    lemma_occurrence_key_decodes(i, j, id);
    lemma_occurrence_key_decodes(a, b, other);
    lemma_plan_key_injective(i, j, a, b);
}

/// The three kinds of names never collide: a commitment's name has no
/// separator, a plan's name exactly one, an occurrence's name at least two.
pub proof fn lemma_key_kinds_disjoint(i: nat, a: nat, b: nat, c: nat, d: nat, id: Seq<char>)
    ensures
        commit_key(i) != plan_key(a, b),
        commit_key(i) != occurrence_key(c, d, id),
        plan_key(a, b) != occurrence_key(c, d, id),
{
    lemma_decimal_digits(i);
    lemma_split_single(decimal(i));
    lemma_plan_key_decodes(a, b);
    lemma_occurrence_key_decodes(c, d, id);
    lemma_decimal_digits(b);
    lemma_split_single(decimal(b));
}

/// The digit for `d` as a string.
fn digit_str(d: usize) -> (r: &'static str)
    requires
        d < 10,
    ensures
        r@ == seq![digit_char(d as nat)],
{
    proof {
        reveal_strlit("0");
        reveal_strlit("1");
        reveal_strlit("2");
        reveal_strlit("3");
        reveal_strlit("4");
        reveal_strlit("5");
        reveal_strlit("6");
        reveal_strlit("7");
        reveal_strlit("8");
        reveal_strlit("9");
    }
    let r = if d == 0 {
        "0"
    } else if d == 1 {
        "1"
    } else if d == 2 {
        "2"
    } else if d == 3 {
        "3"
    } else if d == 4 {
        "4"
    } else if d == 5 {
        "5"
    } else if d == 6 {
        "6"
    } else if d == 7 {
        "7"
    } else if d == 8 {
        "8"
    } else {
        "9"
    };
    assert(r@ =~= seq![digit_char(d as nat)]);
    r
}

/// Writes `n` in decimal.
pub fn decimal_string(n: usize) -> (r: String)
    ensures
        r@ == decimal(n as nat),
    decreases n,
{
    if n < 10 {
        String::from_str(digit_str(n))
    } else {
        let mut r = decimal_string(n / 10);
        r.append(digit_str(n % 10));
        assert(r@ =~= decimal(n as nat));
        r
    }
}

/// The name of the commitment with index `i`.
pub fn encode_commit(i: usize) -> (r: String)
    ensures
        r@ == commit_key(i as nat),
{
    decimal_string(i)
}

/// The name of plan `j` of commitment `i`.
pub fn encode_plan(i: usize, j: usize) -> (r: String)
    ensures
        r@ == plan_key(i as nat, j as nat),
{
    let mut r = decimal_string(i);
    let second = decimal_string(j);
    proof {
        reveal_strlit("-");
    }
    r.append("-");
    r.append(second.as_str());
    assert(r@ =~= plan_key(i as nat, j as nat));
    r
}

/// The name of the occurrence of the service call `id` in plan `j` of
/// commitment `i`.
pub fn encode_occurrence(i: usize, j: usize, id: &str) -> (r: String)
    ensures
        r@ == occurrence_key(i as nat, j as nat, id@),
{
    let mut r = encode_plan(i, j);
    proof {
        reveal_strlit("-");
    }
    r.append("-");
    r.append(id);
    assert(r@ =~= occurrence_key(i as nat, j as nat, id@));
    r
}

/// Number of characters before the first separator of `s`.
pub fn find_first_sep(s: &str) -> (r: usize)
    ensures
        r == first_sep(s@),
        r <= s@.len(),
{
    let len = s.unicode_len();
    let mut n: usize = 0;
    for c in it: s.chars()
        invariant
            n == it.index(),
            it.seq() == s@,
            len == s@.len(),
            forall|k: int| 0 <= k < n ==> !is_sep(#[trigger] s@[k]),
    {
        if c == '-' {
            proof {
                lemma_first_sep_is(s@, n as int);
            }
            return n;
        }
        n = n + 1;
    }
    proof {
        lemma_first_sep_is(s@, n as int);
    }
    n
}

/// Position of the last separator of `s`, 0 when it has none.
pub fn find_last_sep(s: &str) -> (r: usize)
    ensures
        r == last_sep(s@),
        r <= s@.len(),
{
    let len = s.unicode_len();
    let mut n: usize = 0;
    let mut last: usize = 0;
    for c in it: s.chars()
        invariant
            n == it.index(),
            it.seq() == s@,
            len == s@.len(),
            last == last_sep(s@.take(n as int)),
            last <= n,
    {
        proof {
            let t = s@.take(n + 1);
            assert(t.drop_last() =~= s@.take(n as int));
            assert(t.last() == s@[n as int]);
        }
        if c == '-' {
            last = n;
        }
        n = n + 1;
    }
    assert(s@.take(n as int) =~= s@);
    last
}

/// Whether `s` has at least one separator.
pub fn contains_sep(s: &str) -> (r: bool)
    ensures
        r == has_sep(s@),
{
    let n = find_first_sep(s);
    n < s.unicode_len()
}

/// Whether `s` can name a solver variable.
pub fn is_nameable(s: &str) -> (r: bool)
    ensures
        r == nameable(s@),
{
    for c in it: s.chars()
        invariant
            it.seq() == s@,
            forall|k: int| 0 <= k < it.index() ==> #[trigger] s@[k] != '\0',
    {
        if c == '\0' {
            return false;
        }
    }
    true
}

/// The first segment of `s`.
pub fn head_of(s: &str) -> (r: &str)
    ensures
        r@ == head(s@),
{
    let n = find_first_sep(s);
    s.substring_char(0, n)
}

/// What follows the first separator of `s`.
pub fn tail_of(s: &str) -> (r: &str)
    ensures
        r@ == tail(s@),
{
    let n = find_first_sep(s);
    let len = s.unicode_len();
    if n < len {
        s.substring_char(n + 1, len)
    } else {
        proof {
            reveal_strlit("");
        }
        let r = "";
        assert(r@ =~= Seq::<char>::empty());
        r
    }
}

/// The commitment's name inside the name of one of its plans or occurrences.
pub fn decode_commit(name: &str) -> (r: String)
    ensures
        r@ == commit_prefix(name@),
{
    String::from_str(head_of(name))
}

/// The plan's name inside the name of one of its occurrences.
pub fn decode_plan(name: &str) -> (r: String)
    ensures
        r@ == plan_prefix(name@),
{
    let mut r = String::from_str(head_of(name));
    proof {
        reveal_strlit("-");
    }
    r.append("-");
    r.append(head_of(tail_of(name)));
    assert(r@ =~= plan_prefix(name@));
    r
}

/// The match key of an occurrence's name: the identity of its service call.
pub fn decode_match_key(name: &str) -> (r: String)
    ensures
        r@ == match_key(name@),
{
    String::from_str(tail_of(tail_of(name)))
}

/// The price key of an identity: the identity without its instance.
pub fn decode_price_key(id: &str) -> (r: String)
    ensures
        r@ == price_key(id@),
{
    let n = find_last_sep(id);
    String::from_str(id.substring_char(0, n))
}

} // verus!
