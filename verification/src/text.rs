use vstd::prelude::*;

verus! {

/// Character-wise equality of two strings.
pub fn str_eq(a: &str, b: &str) -> (r: bool)
    ensures
        r == (a@ == b@),
{
    let n: usize = a.unicode_len();
    if n != b.unicode_len() {
        return false;
    }
    let mut i: usize = 0;
    while i < n
        invariant
            n == a@.len(),
            n == b@.len(),
            i <= n,
            forall|j: int| 0 <= j < i ==> a@[j] == b@[j],
        decreases n - i,
    {
        if a.get_char(i) != b.get_char(i) {
            return false;
        }
        i = i + 1;
    }
    assert(a@ =~= b@);
    true
}

/// Whether `s` is one of the given literals.
pub fn is_one_of(s: &str, options: &[&str]) -> (r: bool)
    ensures
        r == exists|i: int| 0 <= i < options@.len() && s@ == options@[i]@,
{
    let mut i: usize = 0;
    while i < options.len()
        invariant
            i <= options@.len(),
            forall|j: int| 0 <= j < i ==> s@ != options@[j]@,
        decreases options@.len() - i,
    {
        if str_eq(s, options[i]) {
            return true;
        }
        i = i + 1;
    }
    false
}

/// Number of entries of `items` equal to `name`.
pub open spec fn count_of(items: Seq<String>, name: Seq<char>) -> nat
    decreases items.len(),
{
    if items.len() == 0 {
        0
    } else {
        count_of(items.drop_last(), name) + if items.last()@ == name { 1nat } else { 0nat }
    }
}

pub proof fn lemma_count_of_bound(items: Seq<String>, name: Seq<char>)
    ensures
        count_of(items, name) <= items.len(),
    decreases items.len(),
{
    if items.len() > 0 {
        lemma_count_of_bound(items.drop_last(), name);
    }
}

/// Number of entries of `items` equal to `name`.
pub fn count_items(items: &Vec<String>, name: &str) -> (n: usize)
    ensures
        n == count_of(items@, name@),
{
    let mut n: usize = 0;
    let mut i: usize = 0;
    while i < items.len()
        invariant
            i <= items@.len(),
            n == count_of(items@.subrange(0, i as int), name@),
            n <= i,
        decreases items@.len() - i,
    {
        proof {
            assert(items@.subrange(0, i + 1).drop_last() =~= items@.subrange(0, i as int));
        }
        if str_eq(items[i].as_str(), name) {
            n = n + 1;
        }
        i = i + 1;
    }
    assert(items@.subrange(0, items@.len() as int) =~= items@);
    n
}

/// Whether some entry of `items` equals `name`.
pub fn contains_item(items: &Vec<String>, name: &str) -> (r: bool)
    ensures
        r == exists|i: int| 0 <= i < items@.len() && items@[i]@ == name@,
{
    let mut i: usize = 0;
    while i < items.len()
        invariant
            i <= items@.len(),
            forall|j: int| 0 <= j < i ==> items@[j]@ != name@,
        decreases items@.len() - i,
    {
        if str_eq(items[i].as_str(), name) {
            return true;
        }
        i = i + 1;
    }
    false
}

/// Character order of two strings, as `str` compares them.
pub open spec fn text_lt(a: Seq<char>, b: Seq<char>) -> bool
    decreases a.len(),
{
    if a.len() == 0 {
        b.len() > 0
    } else if b.len() == 0 {
        false
    } else if a[0] != b[0] {
        (a[0] as int) < (b[0] as int)
    } else {
        text_lt(a.drop_first(), b.drop_first())
    }
}

pub fn str_lt(a: &str, b: &str) -> (r: bool)
    ensures
        r == text_lt(a@, b@),
{
    let n: usize = a.unicode_len();
    let m = b.unicode_len();
    assert(a@.subrange(0, n as int) =~= a@);
    assert(b@.subrange(0, m as int) =~= b@);
    let mut i: usize = 0;
    while i < n && i < m
        invariant
            n == a@.len(),
            m == b@.len(),
            i <= n,
            i <= m,
            text_lt(a@, b@) == text_lt(a@.subrange(i as int, n as int), b@.subrange(i as int, m as int)),
        decreases n - i,
    {
        let x = a.get_char(i);
        let y = b.get_char(i);
        if x != y {
            assert(a@.subrange(i as int, n as int)[0] == x);
            assert(b@.subrange(i as int, m as int)[0] == y);
            return (x as u32) < (y as u32);
        }
        assert(a@.subrange(i as int, n as int).drop_first() =~= a@.subrange(i + 1, n as int));
        assert(b@.subrange(i as int, m as int).drop_first() =~= b@.subrange(i + 1, m as int));
        i = i + 1;
    }
    i == n && i < m
}

} // verus!
