//! Turning a path into the component names that place it in the tree.
use vstd::prelude::*;
use crate::tree::{names_of, PathView};

verus! {

/// One component of a path as the platform splits it.
pub enum PathPart {
    /// A volume or drive marker.
    Prefix,
    /// The leading root marker.
    RootDir,
    /// `.`
    CurDir,
    /// `..`
    ParentDir,
    /// Any other name.
    Normal(String),
}

/// A component as a mathematical value.
pub enum PartView {
    Prefix,
    RootDir,
    CurDir,
    ParentDir,
    Normal(Seq<char>),
}

impl View for PathPart {
    type V = PartView;

    open spec fn view(&self) -> PartView {
        match self {
            PathPart::Prefix => PartView::Prefix,
            PathPart::RootDir => PartView::RootDir,
            PathPart::CurDir => PartView::CurDir,
            PathPart::ParentDir => PartView::ParentDir,
            PathPart::Normal(s) => PartView::Normal(s@),
        }
    }
}

pub open spec fn views_of(ps: Seq<PathPart>) -> Seq<PartView> {
    ps.map_values(|p: PathPart| p@)
}

pub open spec fn dot() -> Seq<char> {
    seq!['.']
}

pub open spec fn dot_dot() -> Seq<char> {
    seq!['.', '.']
}

/// The names a component contributes: none for a volume, root or `.`
/// marker, `..` kept literally, any other name as it is.
pub open spec fn part_names(p: PartView) -> PathView {
    match p {
        PartView::ParentDir => seq![dot_dot()],
        PartView::Normal(s) => seq![s],
        _ => Seq::empty(),
    }
}

/// The names of a split path, in order.
pub open spec fn cleaned(ps: Seq<PartView>) -> PathView
    decreases ps.len(),
{
    if ps.len() == 0 {
        Seq::empty()
    } else {
        cleaned(ps.drop_last()) + part_names(ps.last())
    }
}

/// The runs of text between the slashes of `s`, in order, empty runs
/// included (so there is always at least one).
pub open spec fn segments(s: Seq<char>) -> Seq<Seq<char>>
    decreases s.len(),
{
    if s.len() == 0 {
        seq![Seq::empty()]
    } else {
        let init = segments(s.drop_last());
        if s.last() == '/' {
            init.push(Seq::empty())
        } else {
            init.update(init.len() - 1, init.last().push(s.last()))
        }
    }
}

/// The component a run between slashes gives: none for an empty run or
/// `.`, `ParentDir` for `..`, a name otherwise.
pub open spec fn segment_part(seg: Seq<char>) -> Seq<PartView> {
    if seg.len() == 0 || seg == dot() {
        Seq::empty()
    } else if seg == dot_dot() {
        seq![PartView::ParentDir]
    } else {
        seq![PartView::Normal(seg)]
    }
}

pub open spec fn segments_parts(segs: Seq<Seq<char>>) -> Seq<PartView>
    decreases segs.len(),
{
    if segs.len() == 0 {
        Seq::empty()
    } else {
        segments_parts(segs.drop_last()) + segment_part(segs.last())
    }
}

/// A path written with `/` alone as separator, in a form that no platform
/// reads as a volume prefix: no `\`, no `:` as second character (a drive
/// such as `C:`), and not starting with `//`.
pub open spec fn plain_path(s: Seq<char>) -> bool {
    &&& forall|i: int| 0 <= i < s.len() ==> #[trigger] s[i] != '\\'
    &&& !(s.len() >= 2 && s[1] == ':')
    &&& !(s.len() >= 2 && s[0] == '/' && s[1] == '/')
}

/// The components of a plain path as std documents them: a leading slash
/// gives the root, a leading `.` the current directory, repeated and
/// trailing slashes and any other `.` are dropped, `..` is the parent
/// directory, and every other run between slashes is a name.
pub open spec fn plain_parts(s: Seq<char>) -> Seq<PartView> {
    let lead = if s.len() > 0 && s[0] == '/' {
        seq![PartView::RootDir]
    } else if segments(s)[0] == dot() {
        seq![PartView::CurDir]
    } else {
        Seq::empty()
    };
    lead + segments_parts(segments(s))
}

/// Relies on std::path::Path::components to split `path` the way the
/// platform does; each component is carried over as it is, a name as text.
/// On a plain path every platform splits alike, as std's documentation of
/// `components` and `Component` describes.
#[verifier::external_body]
fn path_parts(path: &str) -> (r: Vec<PathPart>)
    ensures
        plain_path(path@) ==> views_of(r@) == plain_parts(path@),
{
    std::path::Path::new(path).components().map(|c| match c {
        std::path::Component::Prefix(_) => PathPart::Prefix,
        std::path::Component::RootDir => PathPart::RootDir,
        std::path::Component::CurDir => PathPart::CurDir,
        std::path::Component::ParentDir => PathPart::ParentDir,
        std::path::Component::Normal(s) => PathPart::Normal(s.to_string_lossy().into_owned()),
    }).collect()
}

/// The logical names of a split path: volume, root and `.` markers are
/// dropped, `..` is kept as a name, every other name is copied.
pub fn clean_components(parts: &Vec<PathPart>) -> (r: Vec<String>)
    ensures
        names_of(r@) == cleaned(views_of(parts@)),
{
    let mut r: Vec<String> = Vec::new();
    let mut i: usize = 0;
    while i < parts.len()
        invariant
            i <= parts@.len(),
            names_of(r@) == cleaned(views_of(parts@).take(i as int)),
        decreases parts@.len() - i,
    {
        let ghost before = r@;
        match &parts[i] {
            PathPart::ParentDir => {
                let up = "..".to_string();
                proof {
                    reveal_strlit("..");
                    assert(up@ =~= dot_dot());
                }
                r.push(up);
            },
            PathPart::Normal(s) => r.push(s.clone()),
            _ => {},
        }
        proof {
            assert(views_of(parts@).take(i + 1).drop_last() =~= views_of(parts@).take(i as int));
            assert(names_of(r@) =~= names_of(before) + part_names(parts@[i as int]@));
        }
        i = i + 1;
    }
    assert(views_of(parts@).take(parts@.len() as int) =~= views_of(parts@));
    r
}

/// The names of a plain path: the runs between its slashes, without empty
/// runs and `.`.
pub open spec fn plain_names(s: Seq<char>) -> PathView {
    cleaned(plain_parts(s))
}

/// A name that can stand in a tree: not empty, not `.`, and without a slash.
pub open spec fn good_name(n: Seq<char>) -> bool {
    n.len() > 0 && n != dot() && forall|i: int| 0 <= i < n.len() ==> #[trigger] n[i] != '/'
}

proof fn lemma_cleaned_single(x: PartView)
    ensures
        cleaned(seq![x]) == part_names(x),
{
    let e = Seq::<PartView>::empty();
    assert(seq![x].drop_last() =~= e);
    assert(cleaned(e) == Seq::<Seq<char>>::empty());
    assert(cleaned(seq![x]) =~= part_names(x));
}

proof fn lemma_cleaned_append(a: Seq<PartView>, b: Seq<PartView>)
    ensures
        cleaned(a + b) == cleaned(a) + cleaned(b),
    decreases b.len(),
{
    if b.len() == 0 {
        assert(a + b =~= a);
        assert(cleaned(a) + cleaned(b) =~= cleaned(a));
    } else {
        assert((a + b).drop_last() =~= a + b.drop_last());
        lemma_cleaned_append(a, b.drop_last());
        assert(cleaned(a + b) =~= cleaned(a) + cleaned(b));
    }
}

proof fn lemma_segments_no_slash(s: Seq<char>)
    ensures
        segments(s).len() > 0,
        forall|k: int, i: int|
            0 <= k < segments(s).len() && 0 <= i < segments(s)[k].len() ==> #[trigger] segments(s)[k][i] != '/',
    decreases s.len(),
{
    if s.len() > 0 {
        lemma_segments_no_slash(s.drop_last());
        let init = segments(s.drop_last());
        if s.last() != '/' {
            assert forall|k: int, i: int|
                0 <= k < segments(s).len() && 0 <= i < segments(s)[k].len() implies #[trigger] segments(s)[k][i] != '/' by {
                if k == init.len() - 1 && i == init.last().len() {
                    assert(segments(s)[k][i] == s.last());
                } else if k == init.len() - 1 {
                    assert(segments(s)[k][i] == init[k][i]);
                } else {
                    assert(segments(s)[k] == init[k]);
                }
            }
        } else {
            assert forall|k: int, i: int|
                0 <= k < segments(s).len() && 0 <= i < segments(s)[k].len() implies #[trigger] segments(s)[k][i] != '/' by {
                if k < init.len() {
                    assert(segments(s)[k] == init[k]);
                }
            }
        }
    }
}

proof fn lemma_segments_names_good(segs: Seq<Seq<char>>)
    requires
        forall|k: int, i: int| 0 <= k < segs.len() && 0 <= i < segs[k].len() ==> #[trigger] segs[k][i] != '/',
    ensures
        forall|k: int| 0 <= k < cleaned(segments_parts(segs)).len() ==> good_name(#[trigger] cleaned(segments_parts(segs))[k]),
    decreases segs.len(),
{
    if segs.len() > 0 {
        let init = segs.drop_last();
        assert forall|k: int, i: int| 0 <= k < init.len() && 0 <= i < init[k].len() implies #[trigger] init[k][i] != '/' by {
            assert(init[k] == segs[k]);
        }
        lemma_segments_names_good(init);
        lemma_cleaned_append(segments_parts(init), segment_part(segs.last()));
        let seg = segs.last();
        let tail = cleaned(segment_part(seg));
        let part = segment_part(seg);
        if seg.len() == 0 || seg == dot() {
            assert(tail.len() == 0);
        } else if seg == dot_dot() {
            lemma_cleaned_single(PartView::ParentDir);
            assert(tail =~= seq![dot_dot()]);
            assert(dot_dot().len() != dot().len());
            assert(good_name(dot_dot()));
        } else {
            lemma_cleaned_single(PartView::Normal(seg));
            assert(tail =~= seq![seg]);
            assert(forall|i: int| 0 <= i < seg.len() ==> seg[i] == segs[segs.len() - 1][i]);
            assert(good_name(seg));
        }
        let whole = cleaned(segments_parts(segs));
        let head = cleaned(segments_parts(init));
        assert forall|k: int| 0 <= k < whole.len() implies good_name(#[trigger] whole[k]) by {
            if k < head.len() {
                assert(whole[k] == head[k]);
            } else {
                assert(whole[k] == tail[k - head.len()]);
            }
        }
    }
}

/// The names of a plain path are all good names.
pub proof fn lemma_plain_names_good(s: Seq<char>)
    ensures
        forall|k: int| 0 <= k < plain_names(s).len() ==> good_name(#[trigger] plain_names(s)[k]),
{
    let segs = segments(s);
    lemma_segments_no_slash(s);
    lemma_segments_names_good(segs);
    if s.len() > 0 && s[0] == '/' {
        assert(plain_parts(s) =~= seq![PartView::RootDir] + segments_parts(segs));
        lemma_cleaned_append(seq![PartView::RootDir], segments_parts(segs));
        lemma_cleaned_single(PartView::RootDir);
        assert(cleaned(seq![PartView::RootDir]) =~= Seq::<Seq<char>>::empty());
    } else if segs[0] == dot() {
        assert(plain_parts(s) =~= seq![PartView::CurDir] + segments_parts(segs));
        lemma_cleaned_append(seq![PartView::CurDir], segments_parts(segs));
        lemma_cleaned_single(PartView::CurDir);
        assert(cleaned(seq![PartView::CurDir]) =~= Seq::<Seq<char>>::empty());
    } else {
        assert(plain_parts(s) =~= segments_parts(segs));
    }
    assert(plain_names(s) =~= cleaned(segments_parts(segs)));
}

/// The logical names of `path`, split as the platform splits paths. A
/// plain path gives the runs between its slashes, without empty runs and
/// `.`, each a good name.
pub fn clean_path_components(path: &str) -> (r: Vec<String>)
    ensures
        plain_path(path@) ==> names_of(r@) == plain_names(path@),
        plain_path(path@) ==> forall|k: int| 0 <= k < r@.len() ==> good_name(#[trigger] r@[k]@),
{
    let parts = path_parts(path);
    let r = clean_components(&parts);
    proof {
        lemma_plain_names_good(path@);
        if plain_path(path@) {
            assert forall|k: int| 0 <= k < r@.len() implies good_name(#[trigger] r@[k]@) by {
                assert(names_of(r@) == plain_names(path@));
                assert(names_of(r@)[k] == r@[k]@);
                assert(good_name(plain_names(path@)[k]));
            }
        }
    }
    r
}

} // verus!
