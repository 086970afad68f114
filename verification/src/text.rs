//! Text primitives: search, split, strip and trim over character vectors.
//!
//! The platform exposes its strings as wide characters; every delimiter
//! the grammar cares about is ASCII, so the library models text as plain
//! character vectors, whose mathematical value is a `Seq<char>`.

use vstd::prelude::*;

verus! {

/// Space and horizontal tab are the only characters trimming removes.
pub open spec fn is_blank(c: char) -> bool {
    c == ' ' || c == '\t'
}

/// Index of the first occurrence of `search` in `s`, if any.
pub open spec fn find_first_spec(s: Seq<char>, search: char) -> Option<int>
    decreases s.len(),
{
    if s.len() == 0 {
        None
    } else if s[0] == search {
        Some(0)
    } else {
        match find_first_spec(s.skip(1), search) {
            Some(i) => Some(i + 1),
            None => None,
        }
    }
}

/// Index of the last occurrence of `search` in `s`, if any.
pub open spec fn find_last_spec(s: Seq<char>, search: char) -> Option<int>
    decreases s.len(),
{
    if s.len() == 0 {
        None
    } else if s.last() == search {
        Some(s.len() - 1)
    } else {
        find_last_spec(s.drop_last(), search)
    }
}

/// `find_first_spec` returns the first occurrence: the characterization
/// used to connect the searching loops to the recursive definition.
pub proof fn lemma_find_first_spec(s: Seq<char>, search: char)
    ensures
        match find_first_spec(s, search) {
            Some(i) => 0 <= i < s.len() && s[i] == search && (forall|j: int|
                0 <= j < i ==> s[j] != search),
            None => forall|j: int| 0 <= j < s.len() ==> s[j] != search,
        },
    decreases s.len(),
{
    if s.len() == 0 {
    } else if s[0] == search {
    } else {
        lemma_find_first_spec(s.skip(1), search);
        assert forall|j: int| 1 <= j < s.len() implies s[j] == s.skip(1)[j - 1] by {}
    }
}

/// `find_last_spec` returns the last occurrence.
pub proof fn lemma_find_last_spec(s: Seq<char>, search: char)
    ensures
        match find_last_spec(s, search) {
            Some(i) => 0 <= i < s.len() && s[i] == search && (forall|j: int|
                i < j < s.len() ==> s[j] != search),
            None => forall|j: int| 0 <= j < s.len() ==> s[j] != search,
        },
    decreases s.len(),
{
    if s.len() == 0 {
    } else if s.last() == search {
    } else {
        lemma_find_last_spec(s.drop_last(), search);
        assert forall|j: int| 0 <= j < s.len() - 1 implies s[j] == s.drop_last()[j] by {}
    }
}

/// All pieces of `s` between occurrences of `search`, the delimiters
/// consumed; a trailing delimiter contributes a trailing empty piece.
pub open spec fn split_all(s: Seq<char>, search: char) -> Seq<Seq<char>>
    decreases s.len(),
{
    if s.len() == 0 {
        seq![Seq::<char>::empty()]
    } else if s.last() == search {
        split_all(s.drop_last(), search).push(Seq::<char>::empty())
    } else {
        let a = split_all(s.drop_last(), search);
        a.update(a.len() - 1, a.last().push(s.last()))
    }
}

/// The split the library uses: as `split_all`, except that an empty input
/// yields no pieces and an empty trailing piece is omitted.
pub open spec fn split_spec(s: Seq<char>, search: char) -> Seq<Seq<char>> {
    if s.len() == 0 {
        Seq::empty()
    } else {
        let a = split_all(s, search);
        if a.last().len() == 0 {
            a.drop_last()
        } else {
            a
        }
    }
}

/// `split_all` always yields at least one piece.
pub proof fn lemma_split_all_len(s: Seq<char>, search: char)
    ensures
        split_all(s, search).len() >= 1,
    decreases s.len(),
{
    if s.len() != 0 {
        lemma_split_all_len(s.drop_last(), search);
    }
}

/// A concatenation holds a character exactly when one of its sides does.
pub proof fn lemma_contains_concat(a: Seq<char>, b: Seq<char>, x: char)
    ensures
        (a + b).contains(x) == (a.contains(x) || b.contains(x)),
{
    if (a + b).contains(x) {
        let i = choose|i: int| 0 <= i < (a + b).len() && (a + b)[i] == x;
        if i < a.len() {
            assert(a[i] == x);
        } else {
            assert(b[i - a.len()] == x);
        }
    }
    if a.contains(x) {
        let i = choose|i: int| 0 <= i < a.len() && a[i] == x;
        assert((a + b)[i] == x);
    }
    if b.contains(x) {
        let i = choose|i: int| 0 <= i < b.len() && b[i] == x;
        assert((a + b)[a.len() + i] == x);
    }
}

/// A one-character text holds exactly its character.
pub proof fn lemma_contains_singleton(c: char, x: char)
    ensures
        seq![c].contains(x) == (c == x),
{
    if seq![c].contains(x) {
        let i = choose|i: int| 0 <= i < seq![c].len() && seq![c][i] == x;
        assert(i == 0);
    }
    if c == x {
        assert(seq![c][0] == x);
    }
}

/// A two-character text holds exactly its two characters.
pub proof fn lemma_contains_pair(a: char, b: char, x: char)
    ensures
        seq![a, b].contains(x) == (a == x || b == x),
{
    if seq![a, b].contains(x) {
        let i = choose|i: int| 0 <= i < seq![a, b].len() && seq![a, b][i] == x;
        assert(i == 0 || i == 1);
    }
    if a == x {
        assert(seq![a, b][0] == x);
    }
    if b == x {
        assert(seq![a, b][1] == x);
    }
}

/// An empty text holds nothing.
pub proof fn lemma_contains_empty(x: char)
    ensures
        !Seq::<char>::empty().contains(x),
{
    if Seq::<char>::empty().contains(x) {
        let i = choose|i: int|
            0 <= i < Seq::<char>::empty().len() && Seq::<char>::empty()[i] == x;
    }
}

/// Splitting a text without the delimiter yields the text as its one
/// piece.
pub proof fn lemma_split_all_no_delim(s: Seq<char>, search: char)
    requires
        !s.contains(search),
    ensures
        split_all(s, search) =~= seq![s],
    decreases s.len(),
{
    if s.len() == 0 {
        assert(s =~= Seq::<char>::empty());
    } else {
        assert(s[s.len() - 1] == s.last());
        assert(s.last() != search);
        assert forall|j: int| 0 <= j < s.len() - 1 implies s.drop_last()[j] != search by {
            assert(s[j] == s.drop_last()[j]);
        }
        lemma_split_all_no_delim(s.drop_last(), search);
        assert(s.drop_last().push(s.last()) =~= s);
        let a = split_all(s.drop_last(), search);
        assert(a.update(a.len() - 1, a.last().push(s.last())) =~= seq![s]);
    }
}

/// Appending delimiter-free text extends the last piece of a split.
pub proof fn lemma_split_all_append_no_delim(s: Seq<char>, t: Seq<char>, search: char)
    requires
        !t.contains(search),
    ensures
        ({
            let a = split_all(s, search);
            split_all(s + t, search) =~= a.update(a.len() - 1, a.last() + t)
        }),
    decreases t.len(),
{
    let a = split_all(s, search);
    lemma_split_all_len(s, search);
    if t.len() == 0 {
        assert(s + t =~= s);
        assert(a.update(a.len() - 1, a.last() + t) =~= a);
    } else {
        assert(t[t.len() - 1] == t.last());
        assert(t.last() != search);
        assert forall|j: int| 0 <= j < t.len() - 1 implies t.drop_last()[j] != search by {
            assert(t[j] == t.drop_last()[j]);
        }
        lemma_split_all_append_no_delim(s, t.drop_last(), search);
        let b = split_all(s + t.drop_last(), search);
        assert((s + t).drop_last() =~= s + t.drop_last());
        assert((s + t).last() == t.last());
        assert(split_all(s + t, search) =~= b.update(b.len() - 1, b.last().push(t.last())));
        assert(b.len() == a.len());
        assert(b.last() == a.last() + t.drop_last());
        assert((a.last() + t.drop_last()).push(t.last()) =~= a.last() + t);
        assert(b.update(b.len() - 1, b.last().push(t.last())) =~= a.update(
            a.len() - 1,
            a.last() + t,
        ));
    }
}

/// Splitting `a`, the delimiter, then `b`, with the delimiter in neither
/// side and `b` not empty, yields exactly the two sides.
pub proof fn lemma_split_two(a: Seq<char>, b: Seq<char>, search: char)
    requires
        !a.contains(search),
        !b.contains(search),
        b.len() >= 1,
    ensures
        split_spec(a + seq![search] + b, search) =~= seq![a, b],
        split_spec(a + seq![search] + b, search) == seq![a, b],
{
    lemma_split_all_no_delim(a, search);
    assert((a + seq![search]).drop_last() =~= a);
    assert((a + seq![search]).last() == search);
    assert(split_all(a + seq![search], search) =~= seq![a].push(Seq::<char>::empty()));
    lemma_split_all_append_no_delim(a + seq![search], b, search);
    let p = split_all(a + seq![search], search);
    assert(p.len() == 2);
    assert(p.last() =~= Seq::<char>::empty());
    assert(split_all(a + seq![search] + b, search) =~= p.update(1, p.last() + b));
    assert(p.last() + b =~= b);
    assert(split_all(a + seq![search] + b, search) =~= seq![a, b]);
    assert((a + seq![search] + b).len() > 0);
    assert(split_all(a + seq![search] + b, search).last() == b);
    assert(split_spec(a + seq![search] + b, search) =~= seq![a, b]);
}

/// What remains of `s` after removing leading blanks.
pub open spec fn trim_front(s: Seq<char>) -> Seq<char>
    decreases s.len(),
{
    if s.len() > 0 && is_blank(s[0]) {
        trim_front(s.skip(1))
    } else {
        s
    }
}

/// What remains of `s` after removing trailing blanks.
pub open spec fn trim_back(s: Seq<char>) -> Seq<char>
    decreases s.len(),
{
    if s.len() > 0 && is_blank(s.last()) {
        trim_back(s.drop_last())
    } else {
        s
    }
}

/// What remains of `s` after removing blanks on both ends.
pub open spec fn trim_spec(s: Seq<char>) -> Seq<char> {
    trim_back(trim_front(s))
}

/// The leading char of `s` removed, when it is `search`.
pub open spec fn strip_first_spec(s: Seq<char>, search: char) -> Option<Seq<char>> {
    if s.len() > 0 && s[0] == search {
        Some(s.skip(1))
    } else {
        None
    }
}

/// The trailing char of `s` removed, when it is `search`.
pub open spec fn strip_last_spec(s: Seq<char>, search: char) -> Option<Seq<char>> {
    if s.len() > 0 && s.last() == search {
        Some(s.drop_last())
    } else {
        None
    }
}

/// The two sides of `s` around the first occurrence of `search`, each
/// trimmed of blanks.
pub open spec fn split_once_spec(s: Seq<char>, search: char) -> Option<(Seq<char>, Seq<char>)> {
    match find_first_spec(s, search) {
        Some(i) => Some((trim_spec(s.take(i)), trim_spec(s.skip(i + 1)))),
        None => None,
    }
}

/// The views of a vector of character vectors.
pub open spec fn char_views(r: Seq<Vec<char>>) -> Seq<Seq<char>> {
    r.map_values(|p: Vec<char>| p@)
}

proof fn lemma_views_push(a: Seq<Vec<char>>, v: Vec<char>)
    ensures
        char_views(a.push(v)) =~= char_views(a).push(v@),
{
}

/// A fresh copy of `s[start .. end]` (the end exclusive).
pub(crate) fn copy_range(s: &Vec<char>, start: usize, end: usize) -> (r: Vec<char>)
    requires
        start <= end <= s@.len(),
    ensures
        r@ == s@.subrange(start as int, end as int),
{
    let mut r: Vec<char> = Vec::new();
    let mut i: usize = start;
    while i < end
        invariant
            start <= i <= end <= s@.len(),
            r@ =~= s@.subrange(start as int, i as int),
        decreases end - i,
    {
        r.push(s[i]);
        proof {
            assert(r@ =~= s@.subrange(start as int, i + 1));
        }
        i = i + 1;
    }
    r
}

/// A fresh copy of the whole of `s`.
pub(crate) fn dup(s: &Vec<char>) -> (r: Vec<char>)
    ensures
        r@ == s@,
{
    let r = copy_range(s, 0, s.len());
    proof {
        assert(r@ =~= s@);
    }
    r
}

/// Whether the two character vectors hold the same text.
pub fn eq_chars(a: &Vec<char>, b: &Vec<char>) -> (r: bool)
    ensures
        r == (a@ == b@),
{
    if a.len() != b.len() {
        return false;
    }
    let mut i: usize = 0;
    while i < a.len()
        invariant
            a@.len() == b@.len(),
            i <= a@.len(),
            forall|j: int| 0 <= j < i ==> a@[j] == b@[j],
        decreases a.len() - i,
    {
        if a[i] != b[i] {
            return false;
        }
        i = i + 1;
    }
    proof {
        assert(a@ =~= b@);
    }
    true
}

/// Finds the first location of the given char.
pub fn find_first(s: &Vec<char>, search: char) -> (r: Option<usize>)
    ensures
        match r {
            Some(i) => find_first_spec(s@, search) == Some(i as int),
            None => find_first_spec(s@, search) is None,
        },
{
    proof {
        lemma_find_first_spec(s@, search);
    }
    let mut i: usize = 0;
    while i < s.len()
        invariant
            i <= s@.len(),
            forall|j: int| 0 <= j < i ==> s@[j] != search,
            match find_first_spec(s@, search) {
                Some(k) => 0 <= k < s@.len() && s@[k] == search && (forall|j: int|
                    0 <= j < k ==> s@[j] != search),
                None => forall|j: int| 0 <= j < s@.len() ==> s@[j] != search,
            },
        decreases s.len() - i,
    {
        if s[i] == search {
            return Some(i);
        }
        i = i + 1;
    }
    None
}

/// Finds the last location of the given char.
pub fn find_last(s: &Vec<char>, search: char) -> (r: Option<usize>)
    ensures
        match r {
            Some(i) => find_last_spec(s@, search) == Some(i as int),
            None => find_last_spec(s@, search) is None,
        },
{
    proof {
        lemma_find_last_spec(s@, search);
    }
    let mut i: usize = s.len();
    while i > 0
        invariant
            i <= s@.len(),
            forall|j: int| i <= j < s@.len() ==> s@[j] != search,
            match find_last_spec(s@, search) {
                Some(k) => 0 <= k < s@.len() && s@[k] == search && (forall|j: int|
                    k < j < s@.len() ==> s@[j] != search),
                None => forall|j: int| 0 <= j < s@.len() ==> s@[j] != search,
            },
        decreases i,
    {
        i = i - 1;
        if s[i] == search {
            return Some(i);
        }
    }
    None
}

/// Checks for the presence of the given char.
pub fn has(s: &Vec<char>, search: char) -> (r: bool)
    ensures
        r == s@.contains(search),
{
    match find_first(s, search) {
        Some(i) => {
            proof {
                lemma_find_first_spec(s@, search);
            }
            true
        },
        None => {
            proof {
                lemma_find_first_spec(s@, search);
                assert(forall|j: int| 0 <= j < s@.len() ==> s@[j] != search);
            }
            false
        },
    }
}

/// Checks if the string starts with the given char.
pub fn has_first(s: &Vec<char>, search: char) -> (r: bool)
    ensures
        r == (s@.len() > 0 && s@[0] == search),
{
    s.len() > 0 && s[0] == search
}

/// Returns a substring given start and end indices, both inclusive.
pub fn substring(s: &Vec<char>, start: usize, end: usize) -> (r: Vec<char>)
    requires
        start <= end < s@.len(),
    ensures
        r@ == s@.subrange(start as int, end + 1),
{
    let n = s.len();
    copy_range(s, start, end + 1)
}

/// Splits the string into parts separated by the given char.
pub fn split(s: &Vec<char>, search: char) -> (r: Vec<Vec<char>>)
    ensures
        char_views(r@) == split_spec(s@, search),
{
    let mut pieces: Vec<Vec<char>> = Vec::new();
    let mut current: Vec<char> = Vec::new();
    let mut i: usize = 0;
    while i < s.len()
        invariant
            i <= s@.len(),
            split_all(s@.take(i as int), search) =~= char_views(pieces@).push(current@),
        decreases s.len() - i,
    {
        let c = s[i];
        proof {
            assert(s@.take(i + 1).drop_last() =~= s@.take(i as int));
            assert(s@.take(i + 1).last() == s@[i as int]);
        }
        if c == search {
            proof {
                lemma_views_push(pieces@, current);
            }
            pieces.push(current);
            current = Vec::new();
            proof {
                assert(split_all(s@.take(i + 1), search) =~= char_views(pieces@).push(
                    current@));
            }
        } else {
            let ghost old_current = current@;
            current.push(c);
            proof {
                let a = char_views(pieces@).push(old_current);
                assert(a.update(a.len() - 1, a.last().push(c)) =~= char_views(pieces@).push(
                    current@));
            }
        }
        i = i + 1;
    }
    proof {
        assert(s@.take(s@.len() as int) =~= s@);
    }
    if current.len() > 0 {
        proof {
            if s@.len() == 0 {
                assert(split_all(s@, search) == seq![Seq::<char>::empty()]);
                assert(split_all(s@, search).last() == char_views(pieces@).push(
                    current@).last());
                assert(current@.len() == 0);
            }
            lemma_views_push(pieces@, current);
        }
        pieces.push(current);
        proof {
            assert(char_views(pieces@) =~= split_all(s@, search));
        }
        pieces
    } else {
        proof {
            if s@.len() == 0 {
                assert(char_views(pieces@).push(current@).len() == 1);
                assert(char_views(pieces@) =~= Seq::<Seq<char>>::empty());
            } else {
                assert(split_all(s@, search).drop_last() =~= char_views(pieces@));
            }
        }
        pieces
    }
}

/// Splits the string into two parts at the first occurrence of the given
/// character, and trims both parts.
pub fn split_once(s: &Vec<char>, search: char) -> (r: Option<(Vec<char>, Vec<char>)>)
    ensures
        match r {
            Some(pair) => split_once_spec(s@, search) == Some((pair.0@, pair.1@)),
            None => split_once_spec(s@, search) is None,
        },
{
    match find_first(s, search) {
        Some(i) => {
            proof {
                lemma_find_first_spec(s@, search);
            }
            let n = s.len();
            let former = copy_range(s, 0, i);
            let latter = copy_range(s, i + 1, n);
            proof {
                assert(former@ =~= s@.take(i as int));
                assert(latter@ =~= s@.skip(i + 1));
            }
            let former = trim(&former);
            let latter = trim(&latter);
            Some((former, latter))
        },
        None => None,
    }
}

/// Removes the specified leading char from the string.
pub fn strip_first(s: &Vec<char>, search: char) -> (r: Option<Vec<char>>)
    ensures
        match r {
            Some(v) => strip_first_spec(s@, search) == Some(v@),
            None => strip_first_spec(s@, search) is None,
        },
{
    if s.len() > 0 && s[0] == search {
        let v = copy_range(s, 1, s.len());
        proof {
            assert(v@ =~= s@.skip(1));
        }
        Some(v)
    } else {
        None
    }
}

/// Removes the specified trailing char from the string.
pub fn strip_last(s: &Vec<char>, search: char) -> (r: Option<Vec<char>>)
    ensures
        match r {
            Some(v) => strip_last_spec(s@, search) == Some(v@),
            None => strip_last_spec(s@, search) is None,
        },
{
    if s.len() > 0 && s[s.len() - 1] == search {
        let v = copy_range(s, 0, s.len() - 1);
        proof {
            assert(v@ =~= s@.drop_last());
        }
        Some(v)
    } else {
        None
    }
}

/// Removing covered leading blanks leaves `trim_front` unchanged.
pub proof fn lemma_trim_front_skip(s: Seq<char>, k: int)
    requires
        0 <= k <= s.len(),
        forall|j: int| 0 <= j < k ==> is_blank(s[j]),
    ensures
        trim_front(s) == trim_front(s.skip(k)),
    decreases k,
{
    if k > 0 {
        assert(trim_front(s) == trim_front(s.skip(1)));
        lemma_trim_front_skip(s.skip(1), k - 1);
        assert(s.skip(1).skip(k - 1) =~= s.skip(k));
    } else {
        assert(s.skip(0) =~= s);
    }
}

/// Removing covered trailing blanks leaves `trim_back` unchanged.
pub proof fn lemma_trim_back_take(s: Seq<char>, k: int)
    requires
        0 <= k <= s.len(),
        forall|j: int| k <= j < s.len() ==> is_blank(s[j]),
    ensures
        trim_back(s) == trim_back(s.take(k)),
    decreases s.len() - k,
{
    if k < s.len() {
        assert(is_blank(s.last()));
        assert(trim_back(s) == trim_back(s.drop_last()));
        lemma_trim_back_take(s.drop_last(), k);
        assert(s.drop_last().take(k) =~= s.take(k));
    } else {
        assert(s.take(k) =~= s);
    }
}

/// Removes blanks on both ends.
pub fn trim(s: &Vec<char>) -> (r: Vec<char>)
    ensures
        r@ == trim_spec(s@),
{
    let mut a: usize = 0;
    while a < s.len() && is_blank_exec(s[a])
        invariant
            a <= s@.len(),
            forall|j: int| 0 <= j < a ==> is_blank(s@[j]),
        decreases s.len() - a,
    {
        a = a + 1;
    }
    proof {
        lemma_trim_front_skip(s@, a as int);
    }
    if a == s.len() {
        proof {
            assert(s@.skip(a as int) =~= Seq::<char>::empty());
            assert(trim_front(s@) =~= Seq::<char>::empty());
        }
        return Vec::new();
    }
    let mut b: usize = s.len() - 1;
    while b > a && is_blank_exec(s[b])
        invariant
            a <= b < s@.len(),
            forall|j: int| b < j < s@.len() ==> is_blank(s@[j]),
        decreases b,
    {
        b = b - 1;
    }
    // s[a] is not blank, so the scan from the back stops at a non-blank
    // character no earlier than a.
    let r = copy_range(s, a, b + 1);
    proof {
        let f = s@.skip(a as int);
        assert(trim_front(s@) == f);
        assert(forall|j: int| b + 1 - a <= j < f.len() ==> is_blank(#[trigger] f[j]));
        lemma_trim_back_take(f, b + 1 - a);
        assert(f.take(b + 1 - a).len() > 0 && !is_blank(f.take(b + 1 - a).last()));
        assert(trim_back(f.take(b + 1 - a)) == f.take(b + 1 - a));
        assert(r@ =~= f.take(b + 1 - a));
    }
    r
}

/// Whether the character is a space or a horizontal tab.
pub fn is_blank_exec(c: char) -> (r: bool)
    ensures
        r == is_blank(c),
{
    c == ' ' || c == '\t'
}

} // verus!
