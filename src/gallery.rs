use vstd::prelude::*;
use vstd::multiset::Multiset;
use vstd::relations::{sorted_by, total_ordering};
use vstd::seq_lib::lemma_sorted_unique;

verus! {

broadcast use vstd::seq_lib::group_to_multiset_ensures;

/// A saved image found in the output directory: its path and the time it was last modified,
/// in nanoseconds since the Unix epoch.
pub struct ArtifactRecord {
    pub path: String,
    pub modified_at: u128,
}

/// A record as a value: its path's characters and its modification time.
pub type RecordView = (Seq<char>, u128);

impl View for ArtifactRecord {
    type V = RecordView;

    open spec fn view(&self) -> RecordView {
        (self.path@, self.modified_at)
    }
}

/// The values of a list of records.
pub open spec fn record_views(s: Seq<ArtifactRecord>) -> Seq<RecordView> {
    s.map_values(|r: ArtifactRecord| r@)
}

/// Lexicographic order on texts, by character code.
pub open spec fn text_lt(a: Seq<char>, b: Seq<char>) -> bool
    decreases a.len(),
{
    if a.len() == 0 {
        b.len() > 0
    } else if b.len() == 0 {
        false
    } else if a[0] != b[0] {
        a[0] < b[0]
    } else {
        text_lt(a.drop_first(), b.drop_first())
    }
}

/// `a` may stand before `b` in the gallery: it is newer, or equally new with a path that is
/// not smaller. The gallery lists the newest first.
pub open spec fn precedes(a: RecordView, b: RecordView) -> bool {
    a.1 > b.1 || (a.1 == b.1 && !text_lt(a.0, b.0))
}

/// `s` is in gallery order.
pub open spec fn is_gallery_order(s: Seq<RecordView>) -> bool {
    sorted_by(s, |a: RecordView, b: RecordView| precedes(a, b))
}

/// The gallery of a directory that holds the records `m`: those records in gallery order.
pub open spec fn gallery_of_records(m: Multiset<RecordView>) -> Seq<RecordView> {
    choose|s: Seq<RecordView>| is_gallery_order(s) && s.to_multiset() == m
}

/// The gallery built from a directory listing, in whatever order the listing came.
pub open spec fn gallery_of(listing: Seq<RecordView>) -> Seq<RecordView> {
    gallery_of_records(listing.to_multiset())
}

proof fn lemma_text_lt_irreflexive(a: Seq<char>)
    ensures
        !text_lt(a, a),
    decreases a.len(),
{
    if a.len() > 0 {
        lemma_text_lt_irreflexive(a.drop_first());
    }
}

proof fn lemma_text_lt_asymmetric(a: Seq<char>, b: Seq<char>)
    requires
        text_lt(a, b),
    ensures
        !text_lt(b, a),
    decreases a.len(),
{
    if a.len() > 0 && b.len() > 0 && a[0] == b[0] {
        lemma_text_lt_asymmetric(a.drop_first(), b.drop_first());
    }
}

proof fn lemma_text_lt_transitive(a: Seq<char>, b: Seq<char>, c: Seq<char>)
    requires
        text_lt(a, b),
        text_lt(b, c),
    ensures
        text_lt(a, c),
    decreases a.len(),
{
    if a.len() > 0 && b.len() > 0 && c.len() > 0 && a[0] == b[0] && b[0] == c[0] {
        lemma_text_lt_transitive(a.drop_first(), b.drop_first(), c.drop_first());
    }
}

proof fn lemma_text_lt_total(a: Seq<char>, b: Seq<char>)
    requires
        a != b,
    ensures
        text_lt(a, b) || text_lt(b, a),
    decreases a.len(),
{
    if a.len() > 0 && b.len() > 0 && a[0] == b[0] {
        assert(a =~= seq![a[0]] + a.drop_first());
        assert(b =~= seq![b[0]] + b.drop_first());
        lemma_text_lt_total(a.drop_first(), b.drop_first());
    } else if a.len() == 0 && b.len() == 0 {
        assert(a =~= b);
    } else if a.len() > 0 && b.len() > 0 {
    }
}

/// Gallery order is a total order on record values.
pub proof fn lemma_precedes_total_ordering()
    ensures
        total_ordering(|a: RecordView, b: RecordView| precedes(a, b)),
{
    let leq = |a: RecordView, b: RecordView| precedes(a, b);
    assert forall|x: RecordView| #[trigger] leq(x, x) by {
        lemma_text_lt_irreflexive(x.0);
    }
    assert forall|x: RecordView, y: RecordView| #[trigger] leq(x, y) && #[trigger] leq(y, x)
        implies x == y by {
        if x.0 != y.0 {
            lemma_text_lt_total(x.0, y.0);
        }
    }
    assert forall|x: RecordView, y: RecordView, z: RecordView|
        #[trigger] leq(x, y) && #[trigger] leq(y, z) implies leq(x, z) by {
        if x.1 == y.1 && y.1 == z.1 && text_lt(x.0, z.0) {
            if x.0 == y.0 {
            } else if text_lt(x.0, y.0) {
            } else {
                lemma_text_lt_total(x.0, y.0);
                lemma_text_lt_transitive(y.0, x.0, z.0);
            }
        }
    }
    assert forall|x: RecordView, y: RecordView| #[trigger] leq(x, y) || #[trigger] leq(y, x) by {
        if x.1 == y.1 && text_lt(x.0, y.0) {
            lemma_text_lt_asymmetric(x.0, y.0);
        }
    }
}

/// Inserting `x` before the first entry that it should precede keeps gallery order.
proof fn lemma_insert_keeps_order(s: Seq<RecordView>, x: RecordView, p: int)
    requires
        is_gallery_order(s),
        0 <= p <= s.len(),
        forall|j: int| 0 <= j < p ==> precedes(#[trigger] s[j], x),
        p < s.len() ==> !precedes(s[p], x),
    ensures
        is_gallery_order(s.insert(p, x)),
{
    lemma_precedes_total_ordering();
    let leq = |a: RecordView, b: RecordView| precedes(a, b);
    let nv = s.insert(p, x);
    assert forall|j: int| p <= j < s.len() implies leq(x, #[trigger] s[j]) by {
        assert(leq(s[p], x) || leq(x, s[p]));
        if j > p {
            assert(leq(s[p], s[j]));
        }
    }
    assert forall|i: int, j: int| 0 <= i < j < nv.len() implies #[trigger] leq(nv[i], nv[j]) by {
        if j < p {
            assert(nv[i] == s[i] && nv[j] == s[j]);
        } else if j == p {
            assert(nv[i] == s[i]);
        } else if i == p {
            assert(nv[j] == s[j - 1]);
        } else if i < p {
            assert(nv[i] == s[i] && nv[j] == s[j - 1]);
        } else {
            assert(nv[i] == s[i - 1] && nv[j] == s[j - 1]);
        }
    }
}

/// The place where `x` goes in `s`: after every entry that may precede it.
proof fn lemma_insertion_point(s: Seq<RecordView>, x: RecordView) -> (p: int)
    requires
        is_gallery_order(s),
    ensures
        0 <= p <= s.len(),
        forall|j: int| 0 <= j < p ==> precedes(#[trigger] s[j], x),
        p < s.len() ==> !precedes(s[p], x),
    decreases s.len(),
{
    if s.len() == 0 || !precedes(s[0], x) {
        0
    } else {
        let t = s.drop_first();
        assert forall|i: int, j: int| 0 <= i < j < t.len() implies #[trigger] precedes(t[i], t[j]) by {
            assert((|a: RecordView, b: RecordView| precedes(a, b))(s[i + 1], s[j + 1]));
        }
        let q = lemma_insertion_point(t, x);
        assert forall|j: int| 0 <= j < q + 1 implies precedes(#[trigger] s[j], x) by {
            if j > 0 {
                assert(s[j] == t[j - 1]);
            }
        }
        q + 1
    }
}

/// Every listing has a gallery: its records can be put in gallery order.
pub proof fn lemma_gallery_exists(listing: Seq<RecordView>)
    ensures
        is_gallery_order(gallery_of(listing)),
        gallery_of(listing).to_multiset() == listing.to_multiset(),
    decreases listing.len(),
{
    if listing.len() == 0 {
        let e = Seq::<RecordView>::empty();
        assert(is_gallery_order(e) && e.to_multiset() == listing.to_multiset());
    } else {
        let init = listing.drop_last();
        let x = listing.last();
        lemma_gallery_exists(init);
        let s = gallery_of(init);
        let p = lemma_insertion_point(s, x);
        lemma_insert_keeps_order(s, x, p);
        assert(listing =~= init.push(x));
        let w = s.insert(p, x);
        assert(is_gallery_order(w) && w.to_multiset() == listing.to_multiset());
    }
}

/// The gallery lists newer images first: along it, modification times never increase, and
/// it holds exactly the listed records.
pub proof fn lemma_gallery_newest_first(listing: Seq<RecordView>)
    ensures
        forall|i: int, j: int|
            0 <= i < j < gallery_of(listing).len() ==> gallery_of(listing)[i].1
                >= gallery_of(listing)[j].1,
        gallery_of(listing).to_multiset() == listing.to_multiset(),
{
    lemma_gallery_exists(listing);
    let g = gallery_of(listing);
    assert forall|i: int, j: int| 0 <= i < j < g.len() implies g[i].1 >= g[j].1 by {
        assert((|a: RecordView, b: RecordView| precedes(a, b))(g[i], g[j]));
    }
}

/// Whether `a` comes before `b` in lexicographic order.
pub fn text_less(a: &str, b: &str) -> (r: bool)
    ensures
        r == text_lt(a@, b@),
{
    let la = a.unicode_len();
    let lb = b.unicode_len();
    let mut i: usize = 0;
    assert(a@.skip(0) =~= a@);
    assert(b@.skip(0) =~= b@);
    while i < la && i < lb
        invariant
            la == a@.len(),
            lb == b@.len(),
            i <= la,
            i <= lb,
            text_lt(a@, b@) == text_lt(a@.skip(i as int), b@.skip(i as int)),
        decreases la - i,
    {
        let ca = a.get_char(i);
        let cb = b.get_char(i);
        assert(a@.skip(i as int)[0] == ca);
        assert(b@.skip(i as int)[0] == cb);
        if ca != cb {
            return ca < cb;
        }
        assert(a@.skip(i as int).drop_first() =~= a@.skip(i + 1));
        assert(b@.skip(i as int).drop_first() =~= b@.skip(i + 1));
        i = i + 1;
    }
    i < lb
}

/// Whether `a` may stand before `b` in the gallery.
pub fn shows_before(a: &ArtifactRecord, b: &ArtifactRecord) -> (r: bool)
    ensures
        r == precedes(a@, b@),
{
    a.modified_at > b.modified_at || (a.modified_at == b.modified_at && !text_less(
        a.path.as_str(),
        b.path.as_str(),
    ))
}

/// Puts a directory listing in gallery order: newest first, equally new ones by path, the
/// greatest first. The result depends on the listed records alone, not on the listing's order.
pub fn order_gallery(listing: Vec<ArtifactRecord>) -> (r: Vec<ArtifactRecord>)
    ensures
        record_views(r@) == gallery_of(record_views(listing@)),
        record_views(r@).to_multiset() == record_views(listing@).to_multiset(),
        is_gallery_order(record_views(r@)),
        forall|i: int, j: int|
            0 <= i < j < r@.len() ==> r@[i].modified_at >= r@[j].modified_at,
{
    let ghost all = record_views(listing@).to_multiset();
    let mut rest = listing;
    let mut out: Vec<ArtifactRecord> = Vec::new();
    proof {
        lemma_precedes_total_ordering();
        assert(record_views(out@) =~= Seq::<RecordView>::empty());
    }
    loop
        invariant
            total_ordering(|a: RecordView, b: RecordView| precedes(a, b)),
            is_gallery_order(record_views(out@)),
            record_views(out@).to_multiset().add(record_views(rest@).to_multiset()) == all,
        ensures
            is_gallery_order(record_views(out@)),
            record_views(out@).to_multiset() == all,
        decreases rest@.len(),
    {
        let ghost before = rest@;
        match rest.pop() {
            None => {
                proof {
                    assert(record_views(rest@) =~= Seq::<RecordView>::empty());
                    assert(record_views(out@).to_multiset() =~= all);
                }
                break;
            },
            Some(rec) => {
                proof {
                    assert(record_views(before) =~= record_views(rest@).push(rec@));
                }
                let mut p: usize = 0;
                while p < out.len() && shows_before(&out[p], &rec)
                    invariant
                        p <= out@.len(),
                        forall|j: int| 0 <= j < p ==> precedes(#[trigger] out@[j]@, rec@),
                    decreases out@.len() - p,
                {
                    p = p + 1;
                }
                let ghost old_views = record_views(out@);
                proof {
                    if p < out@.len() {
                        assert(old_views[p as int] == out@[p as int]@);
                        assert(!precedes(old_views[p as int], rec@));
                    }
                }
                out.insert(p, rec);
                proof {
                    assert(record_views(out@) =~= old_views.insert(p as int, rec@));
                    lemma_insert_keeps_order(old_views, rec@, p as int);
                }
            },
        }
    }
    proof {
        let v = record_views(out@);
        let g = gallery_of(record_views(listing@));
        assert(is_gallery_order(v) && v.to_multiset() == record_views(listing@).to_multiset());
        assert(is_gallery_order(g) && g.to_multiset() == v.to_multiset());
        lemma_sorted_unique(v, g, |a: RecordView, b: RecordView| precedes(a, b));
        assert forall|i: int, j: int| 0 <= i < j < out@.len() implies out@[i].modified_at
            >= out@[j].modified_at by {
            assert(v[i] == out@[i]@ && v[j] == out@[j]@);
            assert((|a: RecordView, b: RecordView| precedes(a, b))(v[i], v[j]));
        }
    }
    out
}

/// The paths shown after a refresh: those of the directory's gallery, or none where the
/// directory could not be listed.
pub open spec fn gallery_paths(listing: Option<Seq<RecordView>>) -> Seq<Seq<char>> {
    match listing {
        Some(l) => gallery_of(l).map_values(|r: RecordView| r.0),
        None => Seq::empty(),
    }
}

/// The values of an optional listing.
pub open spec fn listing_views(listing: Option<Vec<ArtifactRecord>>) -> Option<Seq<RecordView>> {
    match listing {
        Some(l) => Some(record_views(l@)),
        None => None,
    }
}

/// The texts of a list of strings.
pub open spec fn path_texts(v: Seq<String>) -> Seq<Seq<char>> {
    v.map_values(|s: String| s@)
}

/// The paths to show, newest first, for a directory listing; an unreadable directory
/// (`None`) shows nothing.
pub fn refresh(listing: Option<Vec<ArtifactRecord>>) -> (r: Vec<String>)
    ensures
        path_texts(r@) == gallery_paths(listing_views(listing)),
{
    match listing {
        None => {
            let r: Vec<String> = Vec::new();
            assert(path_texts(r@) =~= Seq::<Seq<char>>::empty());
            r
        },
        Some(l) => {
            let ghost lv = record_views(l@);
            let ordered = order_gallery(l);
            let ghost g = record_views(ordered@);
            let mut r: Vec<String> = Vec::new();
            let mut i: usize = 0;
            while i < ordered.len()
                invariant
                    i <= ordered@.len(),
                    g == record_views(ordered@),
                    r@.len() == i,
                    forall|k: int| 0 <= k < i ==> #[trigger] r@[k]@ == g[k].0,
                decreases ordered@.len() - i,
            {
                r.push(ordered[i].path.clone());
                i = i + 1;
            }
            assert(path_texts(r@) =~= g.map_values(|x: RecordView| x.0));
            r
        },
    }
}

/// Refreshing an unchanged directory gives the same gallery, in whatever order the directory
/// lists its entries each time.
pub proof fn lemma_refresh_idempotent(first: Seq<RecordView>, second: Seq<RecordView>)
    requires
        first.to_multiset() == second.to_multiset(),
    ensures
        gallery_of(first) == gallery_of(second),
        gallery_paths(Some(first)) == gallery_paths(Some(second)),
{
}

} // verus!
