use vstd::prelude::*;

verus! {

/// Number of newline characters in a text.
pub open spec fn nl_count(s: Seq<char>) -> nat
    decreases s.len(),
{
    if s.len() == 0 {
        0
    } else {
        nl_count(s.drop_last()) + if s.last() == '\n' {
            1nat
        } else {
            0nat
        }
    }
}

/// The 1-based column reached after reading `s`, starting from column `col0`.
pub open spec fn col_after(s: Seq<char>, col0: nat) -> nat
    decreases s.len(),
{
    if s.len() == 0 {
        col0
    } else if s.last() == '\n' {
        1
    } else {
        col_after(s.drop_last(), col0) + 1
    }
}

/// The first index at or after `i` holding character `c`; `s.len()` if there is none.
pub open spec fn find_at(s: Seq<char>, i: nat, c: char) -> nat
    decreases s.len() - i when i <= s.len()
{
    if i >= s.len() {
        s.len()
    } else if s[i as int] == c {
        i
    } else {
        find_at(s, i + 1, c)
    }
}

/// Whether `sub` occurs in `s` starting at index `i`.
pub open spec fn matches_at(s: Seq<char>, i: nat, sub: Seq<char>) -> bool {
    i + sub.len() <= s.len() && s.subrange(i as int, (i + sub.len()) as int) == sub
}

/// The first index at or after `i` where `sub` occurs; `s.len()` if there is none.
pub open spec fn find_sub_at(s: Seq<char>, i: nat, sub: Seq<char>) -> nat
    decreases s.len() - i when i <= s.len()
{
    if i >= s.len() {
        s.len()
    } else if matches_at(s, i, sub) {
        i
    } else {
        find_sub_at(s, i + 1, sub)
    }
}

/// Whether `p` is a prefix of `s`.
pub open spec fn has_prefix(s: Seq<char>, p: Seq<char>) -> bool {
    p.len() <= s.len() && s.subrange(0, p.len() as int) == p
}

pub proof fn lemma_find_at(s: Seq<char>, i: nat, c: char)
    requires
        i <= s.len(),
    ensures
        i <= find_at(s, i, c) <= s.len(),
        find_at(s, i, c) < s.len() ==> s[find_at(s, i, c) as int] == c,
        forall|j: int| i <= j < find_at(s, i, c) ==> s[j] != c,
    decreases s.len() - i,
{
    if i < s.len() && s[i as int] != c {
        lemma_find_at(s, i + 1, c);
    }
}

pub proof fn lemma_find_sub_at(s: Seq<char>, i: nat, sub: Seq<char>)
    requires
        i <= s.len(),
    ensures
        i <= find_sub_at(s, i, sub) <= s.len(),
        find_sub_at(s, i, sub) < s.len() ==> matches_at(s, find_sub_at(s, i, sub), sub),
        forall|j: nat| i <= j < find_sub_at(s, i, sub) ==> !matches_at(s, j, sub),
    decreases s.len() - i,
{
    if i < s.len() && !matches_at(s, i, sub) {
        lemma_find_sub_at(s, i + 1, sub);
    }
}

/// Counting newlines distributes over taking one more character.
pub proof fn lemma_nl_count_step(s: Seq<char>, j: int)
    requires
        0 <= j < s.len(),
    ensures
        nl_count(s.take(j + 1)) == nl_count(s.take(j)) + if s[j] == '\n' {
            1nat
        } else {
            0nat
        },
{
    assert(s.take(j + 1).drop_last() =~= s.take(j));
    assert(s.take(j + 1).last() == s[j]);
}

/// The column after one more character is 1 on a newline, else one further.
pub proof fn lemma_col_after_step(s: Seq<char>, j: int, col0: nat)
    requires
        0 <= j < s.len(),
    ensures
        col_after(s.take(j + 1), col0) == if s[j] == '\n' {
            1nat
        } else {
            col_after(s.take(j), col0) + 1
        },
{
    assert(s.take(j + 1).drop_last() =~= s.take(j));
    assert(s.take(j + 1).last() == s[j]);
}

/// Character-by-character string equality, stated over the views.
pub fn str_eq(a: &str, b: &str) -> (r: bool)
    ensures
        r == (a@ == b@),
{
    let a_len = a.unicode_len();
    let b_len = b.unicode_len();
    if a_len != b_len {
        return false;
    }
    let mut j: usize = 0;
    while j < a_len
        invariant
            j <= a_len == a@.len() == b@.len(),
            forall|k: int| 0 <= k < j ==> a@[k] == b@[k],
        decreases a_len - j,
    {
        if a.get_char(j) != b.get_char(j) {
            return false;
        }
        j = j + 1;
    }
    proof {
        assert(a@ =~= b@);
    }
    true
}

/// If `s[j] == c` and nothing in `[i, j)` is `c`, then `j` is the first occurrence.
pub proof fn lemma_find_at_pins(s: Seq<char>, i: nat, c: char, j: nat)
    requires
        i <= j < s.len(),
        s[j as int] == c,
        forall|k: int| i <= k < j ==> s[k] != c,
    ensures
        find_at(s, i, c) == j,
{
    lemma_find_at(s, i, c);
    if find_at(s, i, c) < j {
        assert(s[find_at(s, i, c) as int] != c);
    }
    if find_at(s, i, c) > j {
        assert(s[j as int] != c);
    }
}

/// Whether the literal `p` is a prefix of `s`, character by character.
pub fn str_has_prefix(s: &str, p: &str) -> (r: bool)
    ensures
        r == has_prefix(s@, p@),
{
    let p_len = p.unicode_len();
    let s_len = s.unicode_len();
    if p_len > s_len {
        return false;
    }
    let mut j: usize = 0;
    while j < p_len
        invariant
            j <= p_len == p@.len() <= s@.len(),
            forall|k: int| 0 <= k < j ==> s@[k] == p@[k],
        decreases p_len - j,
    {
        if s.get_char(j) != p.get_char(j) {
            assert(s@.subrange(0, p@.len() as int)[j as int] != p@[j as int]);
            return false;
        }
        j = j + 1;
    }
    proof {
        assert(s@.subrange(0, p@.len() as int) =~= p@);
    }
    true
}

/// The first index at or after `from` holding `c`; the length if there is none.
pub fn str_find_at(s: &str, from: usize, c: char) -> (r: usize)
    requires
        from <= s@.len(),
    ensures
        r == find_at(s@, from as nat, c),
{
    let s_len = s.unicode_len();
    let mut j: usize = from;
    while j < s_len
        invariant
            from <= j <= s_len == s@.len(),
            forall|k: int| from <= k < j ==> s@[k] != c,
        decreases s_len - j,
    {
        if s.get_char(j) == c {
            proof {
                lemma_find_at_pins(s@, from as nat, c, j as nat);
            }
            return j;
        }
        j = j + 1;
    }
    proof {
        lemma_find_at(s@, from as nat, c);
        if find_at(s@, from as nat, c) < s@.len() {
            assert(s@[find_at(s@, from as nat, c) as int] != c);
        }
    }
    s_len
}

} // verus!
