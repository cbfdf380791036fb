//! Where an import puts each file: the order of the files, the order of the
//! chapters, and each file's place within its chapter.
//!
//! Names are ordered as `String` orders them: byte by byte, which for UTF-8
//! is the order of the characters' code points.
use vstd::prelude::*;
use crate::importer::{CourseOrder, chapter_of, spec_chapter_of, strings_view};
use crate::text::{chars_of, chars_eq, string_from};

verus! {

broadcast use vstd::seq_lib::group_seq_properties;

// ---------------------------------------------------------------------------
// The order of names
// ---------------------------------------------------------------------------

/// `a` comes before `b`, comparing from index `i` on.
pub open spec fn text_lt_from(a: Seq<char>, b: Seq<char>, i: int) -> bool
    decreases a.len() - i,
{
    if i < 0 {
        false
    } else if i >= a.len() {
        i < b.len()
    } else if i >= b.len() {
        false
    } else if a[i] != b[i] {
        a[i] < b[i]
    } else {
        text_lt_from(a, b, i + 1)
    }
}

/// `a` comes before `b` in lexicographic order.
pub open spec fn text_lt(a: Seq<char>, b: Seq<char>) -> bool {
    text_lt_from(a, b, 0)
}

/// A file or chapter with its rank: ranks first, then names.
pub open spec fn ranked_lt(a: (int, Seq<char>), b: (int, Seq<char>)) -> bool {
    a.0 < b.0 || (a.0 == b.0 && text_lt(a.1, b.1))
}

pub open spec fn strictly_sorted(s: Seq<(int, Seq<char>)>) -> bool {
    forall|i: int, j: int| 0 <= i < j < s.len() ==> ranked_lt(#[trigger] s[i], #[trigger] s[j])
}

proof fn lemma_text_lt_irreflexive(a: Seq<char>, i: int)
    requires
        0 <= i,
    ensures
        !text_lt_from(a, a, i),
    decreases a.len() - i,
{
    if i < a.len() {
        lemma_text_lt_irreflexive(a, i + 1);
    }
}

proof fn lemma_text_lt_transitive(a: Seq<char>, b: Seq<char>, c: Seq<char>, i: int)
    requires
        0 <= i,
        text_lt_from(a, b, i),
        text_lt_from(b, c, i),
    ensures
        text_lt_from(a, c, i),
    decreases a.len() - i,
{
    if i < a.len() && i < b.len() && i < c.len() && a[i] == b[i] && b[i] == c[i] {
        lemma_text_lt_transitive(a, b, c, i + 1);
    }
}

proof fn lemma_text_lt_total(a: Seq<char>, b: Seq<char>, i: int)
    requires
        0 <= i <= a.len(),
        i <= b.len(),
        a.take(i) == b.take(i),
        a != b,
    ensures
        text_lt_from(a, b, i) || text_lt_from(b, a, i),
    decreases a.len() - i,
{
    if i == a.len() {
        if b.len() == i {
            assert(a =~= a.take(i));
            assert(b =~= b.take(i));
        }
    } else if i == b.len() {
    } else if a[i] == b[i] {
        assert(a.take(i + 1) =~= a.take(i).push(a[i]));
        assert(b.take(i + 1) =~= b.take(i).push(b[i]));
        lemma_text_lt_total(a, b, i + 1);
    }
}

proof fn lemma_ranked_order(x: (int, Seq<char>), y: (int, Seq<char>), z: (int, Seq<char>))
    ensures
        !ranked_lt(x, x),
        ranked_lt(x, y) && ranked_lt(y, z) ==> ranked_lt(x, z),
        x != y ==> ranked_lt(x, y) || ranked_lt(y, x),
{
    lemma_text_lt_irreflexive(x.1, 0);
    if ranked_lt(x, y) && ranked_lt(y, z) && x.0 == y.0 && y.0 == z.0 {
        lemma_text_lt_transitive(x.1, y.1, z.1, 0);
    }
    if x != y && x.0 == y.0 {
        assert(x.1.take(0) =~= y.1.take(0));
        lemma_text_lt_total(x.1, y.1, 0);
    }
}

fn text_lt_exec(a: &[char], b: &[char]) -> (r: bool)
    ensures
        r == text_lt(a@, b@),
{
    let mut i: usize = 0;
    loop
        invariant
            i <= a@.len(),
            i <= b@.len(),
            text_lt(a@, b@) == text_lt_from(a@, b@, i as int),
        decreases a@.len() - i,
    {
        if i >= a.len() {
            return i < b.len();
        }
        if i >= b.len() {
            return false;
        }
        if a[i] != b[i] {
            return a[i] < b[i];
        }
        i += 1;
    }
}

// ---------------------------------------------------------------------------
// Sorted sets of ranked names
// ---------------------------------------------------------------------------

pub open spec fn ranked_view(v: Seq<(usize, Vec<char>)>) -> Seq<(int, Seq<char>)> {
    v.map_values(|e: (usize, Vec<char>)| (e.0 as int, e.1@))
}

fn ranked_lt_exec(a: &(usize, Vec<char>), rank: usize, name: &[char]) -> (r: bool)
    ensures
        r == ranked_lt((a.0 as int, a.1@), (rank as int, name@)),
{
    a.0 < rank || (a.0 == rank && text_lt_exec(a.1.as_slice(), name))
}

/// Adds a ranked name to a strictly sorted list, where it is not there yet.
fn insert_ranked(v: &mut Vec<(usize, Vec<char>)>, rank: usize, name: Vec<char>)
    requires
        strictly_sorted(ranked_view(old(v)@)),
    ensures
        strictly_sorted(ranked_view(final(v)@)),
        forall|x: (int, Seq<char>)|
            ranked_view(final(v)@).contains(x) <==> (ranked_view(old(v)@).contains(x) || x == (
            rank as int,
            name@,
        )),
        final(v)@.len() <= old(v)@.len() + 1,
        !ranked_view(old(v)@).contains((rank as int, name@)) ==> final(v)@.len() == old(v)@.len()
            + 1,
{
    let ghost key = (rank as int, name@);
    let ghost before = ranked_view(v@);
    let mut p: usize = 0;
    while p < v.len() && ranked_lt_exec(&v[p], rank, name.as_slice())
        invariant
            p <= v@.len(),
            key == (rank as int, name@),
            before == ranked_view(v@),
            forall|i: int| 0 <= i < p ==> ranked_lt(#[trigger] before[i], key),
        decreases v@.len() - p,
    {
        assert(before[p as int] == (v@[p as int].0 as int, v@[p as int].1@));
        p += 1;
    }
    if p < v.len() && v[p].0 == rank && chars_eq(v[p].1.as_slice(), name.as_slice()) {
        assert(before[p as int] == key);
        assert forall|x: (int, Seq<char>)|
            before.contains(x) <==> (before.contains(x) || x == key) by {
            if x == key {
                assert(before[p as int] == x);
            }
        }
        return;
    }
    proof {
        if p < before.len() {
            lemma_ranked_order(before[p as int], key, key);
            assert(ranked_lt(key, before[p as int]));
            assert forall|j: int| p <= j < before.len() implies ranked_lt(key, #[trigger] before[j]) by {
                if j > p {
                    lemma_ranked_order(key, before[p as int], before[j]);
                }
            }
        }
    }
    v.insert(p, (rank, name));
    proof {
        let after = ranked_view(v@);
        assert(after =~= before.insert(p as int, key));
        assert forall|i: int, j: int| 0 <= i < j < after.len() implies ranked_lt(
            #[trigger] after[i],
            #[trigger] after[j],
        ) by {
            if j < p {
            } else if j == p {
            } else if i < p {
                assert(after[j] == before[j - 1]);
                lemma_ranked_order(before[i], key, before[j - 1]);
            } else if i == p {
                assert(after[j] == before[j - 1]);
            } else {
                assert(after[i] == before[i - 1]);
                assert(after[j] == before[j - 1]);
            }
        }
        assert forall|x: (int, Seq<char>)|
            after.contains(x) <==> (before.contains(x) || x == key) by {
            if after.contains(x) {
                let k = choose|k: int| 0 <= k < after.len() && #[trigger] after[k] == x;
                if k < p {
                    assert(before[k] == x);
                } else if k > p {
                    assert(before[k - 1] == x);
                }
            }
            if before.contains(x) {
                let k = choose|k: int| 0 <= k < before.len() && #[trigger] before[k] == x;
                if k < p {
                    assert(after[k] == x);
                } else {
                    assert(after[k + 1] == x);
                }
            }
            if x == key {
                assert(after[p as int] == x);
            }
        }
    }
}

// ---------------------------------------------------------------------------
// Ordering the files
// ---------------------------------------------------------------------------

/// The index of `name` in `names`, from `i` on.
pub open spec fn index_of(names: Seq<Seq<char>>, name: Seq<char>, i: int) -> Option<int>
    decreases names.len() - i,
{
    if i < 0 || i >= names.len() {
        None
    } else if names[i] == name {
        Some(i)
    } else {
        index_of(names, name, i + 1)
    }
}

/// A file's rank: its place in the manifest, after every listed file if unlisted.
pub open spec fn file_rank(manifest_files: Seq<Seq<char>>, path: Seq<char>) -> int {
    match index_of(manifest_files, path, 0) {
        Some(i) => i,
        None => usize::MAX as int,
    }
}

fn index_of_exec(names: &Vec<String>, name: &[char]) -> (r: Option<usize>)
    ensures
        match r {
            Some(i) => index_of(strings_view(names@), name@, 0) == Some(i as int) && i
                < names@.len(),
            None => index_of(strings_view(names@), name@, 0) is None,
        },
{
    let mut i: usize = 0;
    while i < names.len()
        invariant
            i <= names@.len(),
            index_of(strings_view(names@), name@, 0) == index_of(
                strings_view(names@),
                name@,
                i as int,
            ),
        decreases names@.len() - i,
    {
        let v = chars_of(names[i].as_str());
        assert(strings_view(names@)[i as int] == v@);
        if chars_eq(&v, name) {
            return Some(i);
        }
        i += 1;
    }
    None
}

/// No entry comes after one that it ranks before.
pub open spec fn sorted_by_rank(s: Seq<(int, Seq<char>)>) -> bool {
    forall|i: int, j: int| 0 <= i < j < s.len() ==> !ranked_lt(#[trigger] s[j], #[trigger] s[i])
}

/// Each path with its rank in the manifest.
pub open spec fn ranked_files(files: Seq<Seq<char>>, paths: Seq<Seq<char>>) -> Seq<(int, Seq<char>)> {
    paths.map_values(|x: Seq<char>| (file_rank(files, x), x))
}

proof fn lemma_ranked_asymmetric(x: (int, Seq<char>), y: (int, Seq<char>))
    ensures
        ranked_lt(x, y) ==> !ranked_lt(y, x),
        !ranked_lt(x, y) ==> x == y || ranked_lt(y, x),
{
    lemma_ranked_order(x, y, x);
    lemma_ranked_order(x, x, x);
}

/// Inserts a ranked name after every entry that does not rank after it.
fn insert_sorted(v: &mut Vec<(usize, Vec<char>)>, rank: usize, name: Vec<char>) -> (p: usize)
    requires
        sorted_by_rank(ranked_view(old(v)@)),
    ensures
        p <= old(v)@.len(),
        ranked_view(final(v)@) == ranked_view(old(v)@).insert(p as int, (rank as int, name@)),
        sorted_by_rank(ranked_view(final(v)@)),
{
    let ghost key = (rank as int, name@);
    let ghost before = ranked_view(v@);
    let mut p: usize = 0;
    while p < v.len() && !ranked_lt_key(rank, name.as_slice(), &v[p])
        invariant
            p <= v@.len(),
            key == (rank as int, name@),
            before == ranked_view(v@),
            forall|i: int| 0 <= i < p ==> !ranked_lt(key, #[trigger] before[i]),
        decreases v@.len() - p,
    {
        assert(before[p as int] == (v@[p as int].0 as int, v@[p as int].1@));
        p += 1;
    }
    proof {
        if p < before.len() {
            assert(ranked_lt(key, before[p as int]));
            assert forall|j: int| p <= j < before.len() implies ranked_lt(key, #[trigger] before[j]) by {
                if j > p {
                    lemma_ranked_asymmetric(before[p as int], before[j]);
                    if before[p as int] != before[j] {
                        lemma_ranked_order(key, before[p as int], before[j]);
                    }
                }
            }
        }
    }
    v.insert(p, (rank, name));
    proof {
        let after = ranked_view(v@);
        assert(after =~= before.insert(p as int, key));
        assert forall|i: int, j: int| 0 <= i < j < after.len() implies !ranked_lt(
            #[trigger] after[j],
            #[trigger] after[i],
        ) by {
            if j < p {
            } else if j == p {
            } else if i < p {
                assert(after[j] == before[j - 1]);
            } else if i == p {
                assert(after[j] == before[j - 1]);
                lemma_ranked_asymmetric(key, before[j - 1]);
            } else {
                assert(after[i] == before[i - 1]);
                assert(after[j] == before[j - 1]);
            }
        }
    }
    p
}

fn ranked_lt_key(rank: usize, name: &[char], b: &(usize, Vec<char>)) -> (r: bool)
    ensures
        r == ranked_lt((rank as int, name@), (b.0 as int, b.1@)),
{
    rank < b.0 || (rank == b.0 && text_lt_exec(name, b.1.as_slice()))
}

proof fn lemma_map_multiset<A, B>(s1: Seq<A>, s2: Seq<A>, f: spec_fn(A) -> B)
    requires
        s1.to_multiset() == s2.to_multiset(),
    ensures
        s1.map_values(f).to_multiset() == s2.map_values(f).to_multiset(),
    decreases s1.len(),
{
    broadcast use {vstd::seq_lib::group_to_multiset_ensures, vstd::multiset::group_multiset_axioms};

    vstd::seq_lib::to_multiset_len(s1);
    vstd::seq_lib::to_multiset_len(s2);
    if s1.len() == 0 {
        assert(s1.map_values(f) =~= Seq::<B>::empty());
        assert(s2.map_values(f) =~= Seq::<B>::empty());
    } else {
        let x = s1.last();
        assert(s1.contains(x)) by {
            assert(s1[s1.len() - 1] == x);
        }
        assert(s1.to_multiset().count(x) > 0);
        assert(s2.contains(x));
        let j = choose|j: int| 0 <= j < s2.len() && s2[j] == x;
        assert(s1.drop_last().push(x) =~= s1);
        assert(s1.drop_last().to_multiset() =~= s1.to_multiset().remove(x));
        assert(s2.remove(j).to_multiset() == s2.to_multiset().remove(x));
        lemma_map_multiset(s1.drop_last(), s2.remove(j), f);
        assert(s1.map_values(f) =~= s1.drop_last().map_values(f).push(f(x)));
        assert(s2.map_values(f).remove(j) =~= s2.remove(j).map_values(f));
        let m2 = s2.map_values(f);
        assert(m2[j] == f(x));
        assert(m2.remove(j).to_multiset() == m2.to_multiset().remove(f(x)));
        assert(m2.contains(f(x)));
        assert(m2.to_multiset().count(f(x)) > 0);
        assert(m2.to_multiset().remove(f(x)).insert(f(x)) =~= m2.to_multiset());
    }
}

/// The files in import order: by their place in the manifest, unlisted files
/// last, and by path where places tie; the same paths, as often as given.
pub fn sort_files(order: &CourseOrder, relatives: &[String]) -> (r: Vec<String>)
    ensures
        r@.len() == relatives@.len(),
        sorted_by_rank(ranked_files(order@.files, strings_view(r@))),
        strings_view(r@).to_multiset() == strings_view(relatives@).to_multiset(),
{
    broadcast use vstd::seq_lib::group_to_multiset_ensures;

    let ghost files = order@.files;
    let ghost rv = strings_view(relatives@);
    let mut sorted: Vec<(usize, Vec<char>)> = Vec::new();
    let mut k: usize = 0;
    assert(ranked_files(files, rv.take(0)) =~= Seq::<(int, Seq<char>)>::empty());
    assert(ranked_view(sorted@) =~= Seq::<(int, Seq<char>)>::empty());
    while k < relatives.len()
        invariant
            k <= relatives@.len(),
            sorted@.len() == k,
            files == order@.files,
            rv == strings_view(relatives@),
            sorted_by_rank(ranked_view(sorted@)),
            forall|i: int|
                0 <= i < sorted@.len() ==> (#[trigger] ranked_view(sorted@)[i]).0 == file_rank(
                    files,
                    ranked_view(sorted@)[i].1,
                ),
            ranked_view(sorted@).to_multiset() == ranked_files(files, rv.take(k as int)).to_multiset(),
        decreases relatives@.len() - k,
    {
        let name = chars_of(relatives[k].as_str());
        let rank = match index_of_exec(&order.files, &name) {
            Some(i) => i,
            None => usize::MAX,
        };
        let ghost before = ranked_view(sorted@);
        let p = insert_sorted(&mut sorted, rank, name);
        proof {
            assert(ranked_view(sorted@).len() == sorted@.len());
            let key = (rank as int, rv[k as int]);
            assert(rv[k as int] == relatives@[k as int]@);
            assert(key == (file_rank(files, rv[k as int]), rv[k as int]));
            let after = ranked_view(sorted@);
            assert(ranked_files(files, rv.take(k + 1)) =~= ranked_files(files, rv.take(k as int)).push(
                key,
            ));
            assert forall|i: int| 0 <= i < after.len() implies (#[trigger] after[i]).0 == file_rank(
                files,
                after[i].1,
            ) by {
                if i < p {
                    assert(after[i] == before[i]);
                } else if i > p {
                    assert(after[i] == before[i - 1]);
                }
            }
        }
        k += 1;
    }
    let ghost sv = ranked_view(sorted@);
    let mut result: Vec<String> = Vec::new();
    let mut i: usize = 0;
    while i < sorted.len()
        invariant
            i <= sorted@.len(),
            sv == ranked_view(sorted@),
            result@.len() == i,
            forall|m: int| 0 <= m < i ==> (#[trigger] result@[m])@ == sv[m].1,
        decreases sorted@.len() - i,
    {
        result.push(string_from(sorted[i].1.as_slice()));
        i += 1;
    }
    proof {
        let names = strings_view(result@);
        assert(rv.take(relatives@.len() as int) =~= rv);
        assert(ranked_files(files, names) =~= sv);
        let snd = |e: (int, Seq<char>)| e.1;
        lemma_map_multiset(sv, ranked_files(files, rv), snd);
        assert(sv.map_values(snd) =~= names);
        assert(ranked_files(files, rv).map_values(snd) =~= rv);
    }
    result
}

// ---------------------------------------------------------------------------
// Chapters and places
// ---------------------------------------------------------------------------

/// Where one file goes: its chapter, the chapter's rank in the course, and
/// the file's rank within the chapter.
#[derive(Debug, Clone)]
pub struct Placement {
    pub chapter: String,
    pub chapter_order: usize,
    pub file_order: usize,
}

/// The chapters an import adds and the place of each file.
#[derive(Debug, Clone)]
pub struct ImportLayout {
    /// Chapters of the files that the manifest does not list, in name order;
    /// they follow the manifest's chapters.
    pub new_chapters: Vec<String>,
    pub placements: Vec<Placement>,
}

/// A chapter's rank: its place in the manifest, else after the manifest's
/// chapters at its place among the new ones.
pub open spec fn chapter_rank(manifest: Seq<Seq<char>>, new: Seq<Seq<char>>, name: Seq<char>) -> int {
    match index_of(manifest, name, 0) {
        Some(i) => i,
        None => match index_of(new, name, 0) {
            Some(k) => manifest.len() + k,
            None => -1,
        },
    }
}

/// How many of the first `k` files belong to chapter `c`.
pub open spec fn count_chapter(files: Seq<Seq<char>>, c: Seq<char>, k: int) -> nat
    decreases k,
{
    if k <= 0 {
        0
    } else {
        count_chapter(files, c, k - 1) + if spec_chapter_of(files[k - 1]) == c {
            1nat
        } else {
            0nat
        }
    }
}

proof fn lemma_index_of(names: Seq<Seq<char>>, name: Seq<char>, i: int)
    requires
        0 <= i,
    ensures
        index_of(names, name, i) matches Some(k) ==> i <= k < names.len() && names[k] == name,
        index_of(names, name, i) is None ==> forall|k: int|
            i <= k < names.len() ==> names[k] != name,
    decreases names.len() - i,
{
    if i < names.len() && names[i] != name {
        lemma_index_of(names, name, i + 1);
    }
}

/// Lays out an import of `files`, already in import order: each file's
/// chapter is the first component of its path; the manifest's chapters keep
/// their ranks and the others follow in name order; within a chapter, files
/// are ranked in the order given.
pub fn place_files(order: &CourseOrder, files: &[String]) -> (l: ImportLayout)
    requires
        order@.chapters.len() + files@.len() <= usize::MAX,
    ensures
        ({
            let new = strings_view(l.new_chapters@);
            let fv = strings_view(files@);
            &&& forall|i: int, j: int| 0 <= i < j < new.len() ==> text_lt(#[trigger] new[i], #[trigger] new[j])
            &&& forall|x: Seq<char>|
                new.contains(x) <==> (!order@.chapters.contains(x) && exists|i: int|
                    0 <= i < fv.len() && spec_chapter_of(#[trigger] fv[i]) == x)
            &&& l.placements@.len() == files@.len()
            &&& forall|i: int|
                0 <= i < files@.len() ==> {
                    let p = #[trigger] l.placements@[i];
                    &&& p.chapter@ == spec_chapter_of(fv[i])
                    &&& p.chapter_order == chapter_rank(order@.chapters, new, p.chapter@)
                    &&& p.file_order == count_chapter(fv, p.chapter@, i)
                }
        }),
{
    let ghost fv = strings_view(files@);
    let ghost manifest = order@.chapters;
    let n = files.len();
    let mut chapters: Vec<Vec<char>> = Vec::new();
    let mut new: Vec<(usize, Vec<char>)> = Vec::new();
    let mut k: usize = 0;
    while k < n
        invariant
            k <= n,
            n == files@.len(),
            fv == strings_view(files@),
            manifest == order@.chapters,
            chapters@.len() == k,
            forall|i: int| 0 <= i < k ==> (#[trigger] chapters@[i])@ == spec_chapter_of(fv[i]),
            strictly_sorted(ranked_view(new@)),
            new@.len() <= k,
            forall|x: (int, Seq<char>)|
                ranked_view(new@).contains(x) <==> (x.0 == 0 && !manifest.contains(x.1) && exists|i: int|
                    0 <= i < k && spec_chapter_of(#[trigger] fv[i]) == x.1),
        decreases n - k,
    {
        let c = chars_of(chapter_of(files[k].as_str()).as_str());
        assert(fv[k as int] == files@[k as int]@);
        let ghost before = ranked_view(new@);
        let listed = index_of_exec(&order.chapters, &c);
        proof {
            lemma_index_of(manifest, c@, 0);
        }
        if listed.is_none() {
            let copy = string_from(&c);
            let cv = chars_of(copy.as_str());
            insert_ranked(&mut new, 0, cv);
        }
        proof {
            let after = ranked_view(new@);
            assert forall|x: (int, Seq<char>)|
                after.contains(x) <==> (x.0 == 0 && !manifest.contains(x.1) && exists|i: int|
                    0 <= i < k + 1 && spec_chapter_of(#[trigger] fv[i]) == x.1) by {
                if manifest.contains(x.1) {
                    let q = choose|q: int| 0 <= q < manifest.len() && #[trigger] manifest[q] == x.1;
                    if listed.is_none() {
                        assert(manifest[q] != c@);
                    }
                }
                if exists|i: int| 0 <= i < k + 1 && spec_chapter_of(#[trigger] fv[i]) == x.1 {
                    let i = choose|i: int| 0 <= i < k + 1 && spec_chapter_of(#[trigger] fv[i]) == x.1;
                    if i < k {
                        assert(exists|i2: int| 0 <= i2 < k && spec_chapter_of(#[trigger] fv[i2]) == x.1);
                    }
                }
                if exists|i: int| 0 <= i < k && spec_chapter_of(#[trigger] fv[i]) == x.1 {
                    let i = choose|i: int| 0 <= i < k && spec_chapter_of(#[trigger] fv[i]) == x.1;
                    assert(0 <= i < k + 1 && spec_chapter_of(fv[i]) == x.1);
                }
                if listed.is_some() && x.1 == c@ {
                    let q = index_of(manifest, c@, 0)->0;
                    assert(manifest[q] == c@);
                    assert(manifest.contains(x.1));
                }
                if listed.is_none() && x == (0int, c@) {
                    assert(spec_chapter_of(fv[k as int]) == x.1);
                }
            }
        }
        chapters.push(c);
        k += 1;
    }
    let ghost nv = ranked_view(new@);
    let mut new_chapters: Vec<String> = Vec::new();
    let mut i: usize = 0;
    while i < new.len()
        invariant
            i <= new@.len(),
            nv == ranked_view(new@),
            new_chapters@.len() == i,
            forall|m: int| 0 <= m < i ==> (#[trigger] new_chapters@[m])@ == nv[m].1,
        decreases new@.len() - i,
    {
        new_chapters.push(string_from(new[i].1.as_slice()));
        i += 1;
    }
    let ghost newv = strings_view(new_chapters@);
    proof {
        assert forall|a: int, b: int| 0 <= a < b < newv.len() implies text_lt(#[trigger] newv[a], #[trigger] newv[b]) by {
            assert(ranked_lt(nv[a], nv[b]));
            assert(nv.contains(nv[a]));
            assert(nv.contains(nv[b]));
        }
        assert forall|x: Seq<char>|
            newv.contains(x) <==> (!manifest.contains(x) && exists|i: int|
                0 <= i < fv.len() && spec_chapter_of(#[trigger] fv[i]) == x) by {
            if newv.contains(x) {
                let m = choose|m: int| 0 <= m < newv.len() && #[trigger] newv[m] == x;
                assert(nv.contains(nv[m]));
            }
            if !manifest.contains(x) && exists|i: int|
                0 <= i < fv.len() && spec_chapter_of(#[trigger] fv[i]) == x {
                assert(nv.contains((0int, x)));
                let m = choose|m: int| 0 <= m < nv.len() && #[trigger] nv[m] == (0int, x);
                assert(newv[m] == x);
            }
        }
    }
    let mut placements: Vec<Placement> = Vec::new();
    let mut f: usize = 0;
    while f < n
        invariant
            f <= n,
            n == files@.len(),
            fv == strings_view(files@),
            manifest == order@.chapters,
            manifest.len() + n <= usize::MAX,
            newv == strings_view(new_chapters@),
            newv.len() <= n,
            chapters@.len() == n,
            forall|i: int| 0 <= i < n ==> (#[trigger] chapters@[i])@ == spec_chapter_of(fv[i]),
            forall|x: Seq<char>|
                newv.contains(x) <==> (!manifest.contains(x) && exists|i: int|
                    0 <= i < fv.len() && spec_chapter_of(#[trigger] fv[i]) == x),
            placements@.len() == f,
            forall|i: int|
                0 <= i < f ==> {
                    let p = #[trigger] placements@[i];
                    &&& p.chapter@ == spec_chapter_of(fv[i])
                    &&& p.chapter_order == chapter_rank(manifest, newv, p.chapter@)
                    &&& p.file_order == count_chapter(fv, p.chapter@, i)
                },
        decreases n - f,
    {
        let c = &chapters[f];
        proof {
            lemma_index_of(manifest, c@, 0);
            lemma_index_of(newv, c@, 0);
        }
        let chapter_order = match index_of_exec(&order.chapters, c.as_slice()) {
            Some(i) => i,
            None => {
                proof {
                    assert(!manifest.contains(c@)) by {
                        if manifest.contains(c@) {
                            let q = choose|q: int| 0 <= q < manifest.len() && #[trigger] manifest[q] == c@;
                        }
                    }
                    assert(spec_chapter_of(fv[f as int]) == c@);
                    assert(newv.contains(c@));
                    let m = choose|m: int| 0 <= m < newv.len() && #[trigger] newv[m] == c@;
                }
                match index_of_exec(&new_chapters, c.as_slice()) {
                    Some(k) => order.chapters.len() + k,
                    None => {
                        assert(false);
                        0
                    },
                }
            },
        };
        let mut count: usize = 0;
        let mut j: usize = 0;
        while j < f
            invariant
                j <= f < n,
                count <= j,
                chapters@.len() == n,
                forall|i: int| 0 <= i < n ==> (#[trigger] chapters@[i])@ == spec_chapter_of(fv[i]),
                c@ == spec_chapter_of(fv[f as int]),
                count == count_chapter(fv, c@, j as int),
            decreases f - j,
        {
            if chars_eq(chapters[j].as_slice(), c.as_slice()) {
                count += 1;
            }
            j += 1;
        }
        placements.push(
            Placement { chapter: string_from(c.as_slice()), chapter_order, file_order: count },
        );
        f += 1;
    }
    ImportLayout { new_chapters, placements }
}

} // verus!
