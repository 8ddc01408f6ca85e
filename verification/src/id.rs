//! Hierarchical IDs that encode a note's position in the tree.

use crate::numeral::{all_digits, decimal, digit, is_digit, next_numeral, value};
use crate::text::{
    chars_of, find_char, lemma_find_char, position_from, push_all, slice_of, string_of,
};
use vstd::prelude::*;
use vstd::string::StrSliceExecFns;

verus! {

/// A hierarchical Luhmann-style ID encoding a note's position in the tree.
///
/// IDs alternate between numeric and alphabetic segments, e.g. `1a1b2`, so appending a
/// letter to a number (or a number to a letter) signals a new child level. A `/` opens
/// a section below the note that stands before it.
///
/// ```text
/// 1
/// ├── 1a          (first child branch of 1)
/// │   ├── 1a1     (first child of 1a)
/// │   │   └── 1a1b  (first child branch of 1a1)
/// │   └── 1a2     (second child of 1a)
/// └── 1b          (next sibling branch after 1a)
/// ```
///
/// An ID is known by its text alone, which is its view.
#[derive(Debug, Hash)]
pub struct ID(String);

impl View for ID {
    type V = Seq<char>;

    closed spec fn view(&self) -> Seq<char> {
        self.0@
    }
}

/// Where the part behind the last `/` begins.
pub open spec fn local_start(s: Seq<char>) -> int
    decreases s.len(),
{
    if s.len() == 0 || s.last() == '/' {
        s.len() as int
    } else {
        local_start(s.drop_last())
    }
}

/// Where the last segment begins: the longest run at the end that is all digits, or
/// free of digits.
pub open spec fn run_start(s: Seq<char>) -> int
    decreases s.len(),
{
    if s.len() <= 1 {
        0
    } else if is_digit(s[s.len() - 2]) == is_digit(s.last()) {
        run_start(s.drop_last())
    } else {
        s.len() - 1
    }
}

/// Where the digits at the end begin.
pub open spec fn digits_start(s: Seq<char>) -> int
    decreases s.len(),
{
    if s.len() == 0 || !is_digit(s.last()) {
        s.len() as int
    } else {
        digits_start(s.drop_last())
    }
}

/// The ID one level up: without the last segment, or without the section where the last
/// segment is the section's only one. A root is its own parent.
pub open spec fn parent_text(s: Seq<char>) -> Seq<char> {
    let k = local_start(s);
    let r = run_start(s.skip(k));
    if r > 0 {
        s.take(k + r)
    } else if k > 0 {
        s.take(k - 1)
    } else {
        s
    }
}

/// `s` is a direct child of `p`; a root is no child of itself.
pub open spec fn child_text(s: Seq<char>, p: Seq<char>) -> bool {
    s != p && parent_text(s) == p
}

/// The trailing number counted up by one, or a `1` appended where there is none.
pub open spec fn next_child_text(s: Seq<char>) -> Seq<char> {
    let t = digits_start(s);
    if t == s.len() {
        s.push('1')
    } else {
        s.take(t) + decimal(value(s.skip(t)) + 1)
    }
}

/// The character after `c`.
pub open spec fn char_after(c: char) -> char {
    (c as int + 1) as char
}

/// The last letter moved on by one, or an `a` appended where the ID ends in a digit (or
/// in nothing at all); nothing follows a `z`.
pub open spec fn next_sibling_text(s: Seq<char>) -> Option<Seq<char>> {
    if s.len() == 0 || s.last() == '/' || is_digit(s.last()) {
        Some(s.push('a'))
    } else if s.last() >= 'z' {
        None
    } else {
        Some(s.drop_last().push(char_after(s.last())))
    }
}

/// The section that an ID stands in: what comes before the first `/`.
pub open spec fn section_text(s: Seq<char>) -> Seq<char> {
    if s.contains('/') {
        s.take(find_char(s, '/'))
    } else {
        Seq::empty()
    }
}

/// The part behind the last `/` holds no `/` and stands right behind one.
pub proof fn lemma_local_start(s: Seq<char>)
    ensures
        0 <= local_start(s) <= s.len(),
        local_start(s) > 0 ==> s[local_start(s) - 1] == '/',
        forall|i: int| local_start(s) <= i < s.len() ==> s[i] != '/',
    decreases s.len(),
{
    if s.len() > 0 && s.last() != '/' {
        lemma_local_start(s.drop_last());
        let k = local_start(s);
        assert(k > 0 ==> s.drop_last()[k - 1] == s[k - 1]);
        assert forall|i: int| k <= i < s.len() implies s[i] != '/' by {
            if i < s.len() - 1 {
                assert(s[i] == s.drop_last()[i]);
            }
        }
    }
}

/// Only one position has what `lemma_local_start` says.
pub proof fn lemma_local_start_unique(s: Seq<char>, k: int)
    requires
        0 <= k <= s.len(),
        k > 0 ==> s[k - 1] == '/',
        forall|i: int| k <= i < s.len() ==> s[i] != '/',
    ensures
        local_start(s) == k,
{
    lemma_local_start(s);
    let l = local_start(s);
    if l < k {
        assert(s[k - 1] != '/');
    } else if l > k {
        assert(s[l - 1] != '/');
    }
}

/// The last segment is all digits or free of digits, and no longer run is.
pub proof fn lemma_run_start(s: Seq<char>)
    requires
        s.len() > 0,
    ensures
        0 <= run_start(s) < s.len(),
        forall|i: int| run_start(s) <= i < s.len() ==> is_digit(#[trigger] s[i]) == is_digit(s.last()),
        run_start(s) > 0 ==> is_digit(s[run_start(s) - 1]) != is_digit(s.last()),
    decreases s.len(),
{
    if s.len() > 1 && is_digit(s[s.len() - 2]) == is_digit(s.last()) {
        let t = s.drop_last();
        lemma_run_start(t);
        assert(t.last() == s[s.len() - 2]);
        assert forall|i: int| run_start(s) <= i < s.len() implies is_digit(#[trigger] s[i]) == is_digit(
            s.last(),
        ) by {
            if i < s.len() - 1 {
                assert(s[i] == t[i]);
            }
        }
        assert(run_start(s) > 0 ==> s[run_start(s) - 1] == t[run_start(s) - 1]);
    }
}

/// Only one position has what `lemma_run_start` says.
pub proof fn lemma_run_start_unique(s: Seq<char>, k: int)
    requires
        0 <= k < s.len(),
        forall|i: int| k <= i < s.len() ==> is_digit(#[trigger] s[i]) == is_digit(s.last()),
        k > 0 ==> is_digit(s[k - 1]) != is_digit(s.last()),
    ensures
        run_start(s) == k,
{
    lemma_run_start(s);
    let r = run_start(s);
    if r < k {
        assert(is_digit(s[k - 1]) == is_digit(s.last()));
    } else if r > k {
        assert(is_digit(s[r - 1]) == is_digit(s.last()));
    }
}

/// The digits at the end are digits, and stand behind none.
pub proof fn lemma_digits_start(s: Seq<char>)
    ensures
        0 <= digits_start(s) <= s.len(),
        all_digits(s.skip(digits_start(s))),
        digits_start(s) > 0 ==> !is_digit(s[digits_start(s) - 1]),
    decreases s.len(),
{
    if s.len() > 0 && is_digit(s.last()) {
        let t = s.drop_last();
        lemma_digits_start(t);
        let k = digits_start(s);
        let d = s.skip(k);
        assert forall|i: int| 0 <= i < d.len() implies is_digit(#[trigger] d[i]) by {
            if i < d.len() - 1 {
                assert(d[i] == t.skip(k)[i]);
            }
        }
        assert(k > 0 ==> t[k - 1] == s[k - 1]);
    }
}

/// Only one position has what `lemma_digits_start` says.
pub proof fn lemma_digits_start_unique(s: Seq<char>, k: int)
    requires
        0 <= k <= s.len(),
        forall|i: int| k <= i < s.len() ==> is_digit(#[trigger] s[i]),
        k > 0 ==> !is_digit(s[k - 1]),
    ensures
        digits_start(s) == k,
{
    lemma_digits_start(s);
    let r = digits_start(s);
    if r < k {
        assert(s.skip(r)[k - 1 - r] == s[k - 1]);
    } else if r > k {
        assert(is_digit(s[r - 1]));
    }
}

/// The texts of a list of IDs.
pub open spec fn texts(ids: Seq<ID>) -> Seq<Seq<char>> {
    ids.map_values(|i: ID| i@)
}

/// The position of the first `x` in `s`, or the length of `s` where there is none.
pub open spec fn find_text(s: Seq<Seq<char>>, x: Seq<char>) -> int
    decreases s.len(),
{
    if s.len() == 0 || s[0] == x {
        0
    } else {
        1 + find_text(s.skip(1), x)
    }
}

/// `find_text` is the one position that ends the stretch free of `x`.
pub proof fn lemma_find_text(s: Seq<Seq<char>>, x: Seq<char>)
    ensures
        0 <= find_text(s, x) <= s.len(),
        find_text(s, x) < s.len() ==> s[find_text(s, x)] == x,
        forall|i: int| 0 <= i < find_text(s, x) ==> s[i] != x,
        find_text(s, x) < s.len() <==> s.contains(x),
    decreases s.len(),
{
    if s.len() == 0 || s[0] == x {
    } else {
        lemma_find_text(s.skip(1), x);
        assert forall|i: int| 0 <= i < find_text(s, x) implies s[i] != x by {
            if i > 0 {
                assert(s[i] == s.skip(1)[i - 1]);
            }
        }
        if s.contains(x) {
            let k = choose|k: int| 0 <= k < s.len() && s[k] == x;
            assert(s.skip(1)[k - 1] == x);
        }
    }
}

/// The position of the first ID in `ids` that is `x`, or the length of `ids`.
pub fn position_of(ids: &Vec<ID>, x: &ID) -> (r: usize)
    ensures
        r <= ids@.len(),
        r == find_text(texts(ids@), x@),
{
    let mut i: usize = 0;
    while i < ids.len() && ids[i] != *x
        invariant
            i <= ids@.len(),
            forall|k: int| 0 <= k < i ==> texts(ids@)[k] != x@,
        decreases ids@.len() - i,
    {
        i = i + 1;
    }
    proof {
        lemma_find_text(texts(ids@), x@);
        let f = find_text(texts(ids@), x@);
        if i < ids@.len() {
            assert(texts(ids@)[i as int] == x@);
        }
        if f < i {
            assert(texts(ids@)[f] != x@);
        }
    }
    i
}

/// Whether `x` is one of `ids`.
pub fn has_id(ids: &Vec<ID>, x: &ID) -> (r: bool)
    ensures
        r == texts(ids@).contains(x@),
{
    proof {
        lemma_find_text(texts(ids@), x@);
    }
    position_of(ids, x) < ids.len()
}

/// A copy of a list of IDs.
pub fn copy_ids(ids: &Vec<ID>) -> (r: Vec<ID>)
    ensures
        texts(r@) == texts(ids@),
{
    let mut r: Vec<ID> = Vec::new();
    for i in 0..ids.len()
        invariant
            texts(r@) == texts(ids@).take(i as int),
    {
        let ghost before = texts(r@);
        r.push(ids[i].clone());
        assert(texts(r@) =~= before.push(ids@[i as int]@));
        assert(texts(ids@).take(i + 1) =~= texts(ids@).take(i as int).push(texts(ids@)[i as int]));
    }
    assert(texts(ids@).take(ids@.len() as int) =~= texts(ids@));
    r
}

/// The character after `c`.
fn successor(c: char) -> (r: char)
    requires
        c < 'z',
    ensures
        r == char_after(c),
{
    let b: u8 = c as u8;
    (b + 1u8) as char
}

/// Values that can stand where an ID is asked for.
pub trait IntoId: Sized {
    /// The text of the ID.
    spec fn id_text(&self) -> Seq<char>;

    /// The ID with that text.
    fn into_id(self) -> (r: ID)
        ensures
            r@ == self.id_text(),
    ;
}

impl IntoId for ID {
    open spec fn id_text(&self) -> Seq<char> {
        self@
    }

    fn into_id(self) -> (r: ID) {
        self
    }
}

impl IntoId for &str {
    open spec fn id_text(&self) -> Seq<char> {
        (*self)@
    }

    fn into_id(self) -> (r: ID) {
        ID(self.to_owned())
    }
}

impl IntoId for String {
    open spec fn id_text(&self) -> Seq<char> {
        self@
    }

    fn into_id(self) -> (r: ID) {
        ID(self)
    }
}

impl From<&str> for ID {
    fn from(s: &str) -> (r: ID)
        ensures
            r@ == s@,
    {
        ID(s.to_owned())
    }
}

impl vstd::std_specs::convert::FromSpecImpl<&str> for ID {
    open spec fn obeys_from_spec() -> bool {
        false
    }

    open spec fn from_spec(s: &str) -> ID {
        arbitrary()
    }
}

impl From<String> for ID {
    fn from(s: String) -> (r: ID)
        ensures
            r@ == s@,
    {
        ID(s)
    }
}

impl vstd::std_specs::convert::FromSpecImpl<String> for ID {
    open spec fn obeys_from_spec() -> bool {
        true
    }

    closed spec fn from_spec(s: String) -> ID {
        ID(s)
    }
}

impl Clone for ID {
    fn clone(&self) -> (r: ID)
        ensures
            r@ == self@,
    {
        ID(self.0.clone())
    }
}

impl Default for ID {
    fn default() -> (r: ID)
        ensures
            r@ == Seq::<char>::empty(),
    {
        ID(String::new())
    }
}

impl PartialEq for ID {
    fn eq(&self, other: &ID) -> (r: bool) {
        self.0 == other.0
    }
}

impl Eq for ID {

}

impl vstd::std_specs::cmp::PartialEqSpecImpl for ID {
    open spec fn obeys_eq_spec() -> bool {
        true
    }

    open spec fn eq_spec(&self, other: &ID) -> bool {
        self@ == other@
    }
}

impl ID {
    /// The ID with the text `id`, such as the root of the main box.
    pub fn root(id: &str) -> (r: ID)
        ensures
            r@ == id@,
    {
        ID(id.to_owned())
    }

    /// The text of the ID.
    pub fn as_str(&self) -> (r: &str)
        ensures
            r@ == self@,
    {
        self.0.as_str()
    }

    /// The text of the ID, as a string of its own.
    pub fn to_string(&self) -> (r: String)
        ensures
            r@ == self@,
    {
        self.0.clone()
    }

    /// The ID that counts the trailing number up by one, or appends `1` where the ID
    /// ends with a letter segment. The number may have any length.
    pub fn next_child(&self) -> (r: ID)
        ensures
            r@ == next_child_text(self@),
    {
        let v = chars_of(self.as_str());
        let mut t: usize = v.len();
        while t > 0 && digit(v[t - 1])
            invariant
                t <= v@.len(),
                forall|i: int| t <= i < v@.len() ==> is_digit(#[trigger] v@[i]),
            decreases t,
        {
            t = t - 1;
        }
        proof {
            lemma_digits_start_unique(v@, t as int);
        }
        let mut r = slice_of(&v, 0, t);
        assert(v@.subrange(0, t as int) =~= v@.take(t as int));
        if t == v.len() {
            r.push('1');
            assert(r@ =~= v@.push('1'));
        } else {
            let digits = slice_of(&v, t, v.len());
            assert(digits@ =~= v@.skip(t as int));
            let n = next_numeral(&digits);
            push_all(&mut r, &n);
        }
        ID(string_of(&r))
    }

    /// The next sibling ID, or `None` where all letter slots are used up.
    pub fn next_sibling(&self) -> (r: Option<ID>)
        ensures
            match r {
                Some(n) => next_sibling_text(self@) == Some(n@),
                None => next_sibling_text(self@) is None,
            },
    {
        let mut v = chars_of(self.as_str());
        let n = v.len();
        if n == 0 || v[n - 1] == '/' || digit(v[n - 1]) {
            v.push('a');
            Some(ID(string_of(&v)))
        } else {
            let last = v[n - 1];
            if !(last < 'z') {
                return None;
            }
            v.pop();
            v.push(successor(last));
            assert(v@ =~= self@.drop_last().push(char_after(last)));
            Some(ID(string_of(&v)))
        }
    }

    /// Strips the last Luhmann segment to infer the parent ID. Roots return themselves.
    pub fn parent(&self) -> (r: ID)
        ensures
            r@ == parent_text(self@),
    {
        let v = chars_of(self.as_str());
        let n = v.len();
        let mut k: usize = n;
        while k > 0 && v[k - 1] != '/'
            invariant
                k <= n == v@.len(),
                forall|i: int| k <= i < n ==> v@[i] != '/',
            decreases k,
        {
            k = k - 1;
        }
        proof {
            lemma_local_start_unique(v@, k as int);
        }
        let ghost local = v@.skip(k as int);
        if k < n {
            let last = digit(v[n - 1]);
            let mut r: usize = n - 1;
            while r > k && digit(v[r - 1]) == last
                invariant
                    k <= r < n == v@.len(),
                    last == is_digit(v@[n - 1]),
                    forall|i: int| r <= i < n ==> is_digit(#[trigger] v@[i]) == last,
                decreases r,
            {
                r = r - 1;
            }
            proof {
                assert(local.last() == v@[n - 1]);
                assert forall|i: int| r - k <= i < local.len() implies is_digit(#[trigger] local[i])
                    == is_digit(local.last()) by {
                    assert(local[i] == v@[i + k]);
                }
                assert(r > k ==> local[r - k - 1] == v@[r - 1]);
                lemma_run_start_unique(local, r - k);
            }
            if r > k {
                let p = slice_of(&v, 0, r);
                assert(p@ =~= v@.take(r as int));
                return ID(string_of(&p));
            }
        }
        if k > 0 {
            let p = slice_of(&v, 0, k - 1);
            assert(p@ =~= v@.take(k - 1));
            return ID(string_of(&p));
        }
        self.clone()
    }

    /// Whether `self` is a direct child of `parent`. A root note (whose parent is
    /// itself) is never considered its own child.
    pub fn is_direct_child_of(&self, parent: &ID) -> (r: bool)
        ensures
            r == child_text(self@, parent@),
    {
        *self != *parent && self.parent() == *parent
    }
}

/// The section prefix of a note ID: the part before the first `/`, empty where there is
/// none.
pub fn draw_section(id: &ID) -> (r: &str)
    ensures
        r@ == section_text(id@),
{
    let v = chars_of(id.as_str());
    let slash = position_from(&v, '/', 0);
    proof {
        assert(v@.skip(0) =~= v@);
        lemma_find_char(v@, '/');
    }
    if slash == v.len() {
        assert(!v@.contains('/'));
        let r = id.as_str().substring_char(0, 0);
        assert(r@ =~= Seq::<char>::empty());
        r
    } else {
        assert(v@[slash as int] == '/');
        let r = id.as_str().substring_char(0, slash);
        assert(r@ =~= v@.take(slash as int));
        r
    }
}

} // verus!
