//! Paths and the files that the review writes.

use vstd::prelude::*;
use crate::text::{chars_of, concat, string_from_chars};

verus! {

/// What `path_clean::clean` makes of a path.
pub uninterp spec fn cleaned_path(path: Seq<char>) -> Seq<char>;

/// Trusted: `path_clean::clean` rewrites a path lexically, without looking at
/// the file system (it folds repeated slashes, `.` and `..` parts), so its
/// result depends on the path alone; the contract names that result. It also
/// claims two facts that the source shows of a Unix path: the root, the first
/// component of a rooted path, is kept and never removed (a `..` right after
/// it is dropped), so the result of a rooted path is rooted; and a cleaned
/// path is left as it is by cleaning it again (its components hold no `.`, no
/// `..` after a name or after the root, and no empty part). Nothing else is
/// claimed.
#[verifier::external_body]
fn clean_path(path: &str) -> (r: String)
    ensures
        r@ == cleaned_path(path@),
        is_absolute(path@) ==> is_absolute(r@),
        cleaned_path(r@) == r@,
{
    path_clean::clean(path).to_string_lossy().into_owned()
}

/// A path is absolute when it starts at the root.
pub open spec fn is_absolute(path: Seq<char>) -> bool {
    path.len() > 0 && path[0] == '/'
}

/// Whether the path starts at the root, so that resolving it needs no
/// current directory.
pub fn is_absolute_path(path: &str) -> (r: bool)
    ensures
        r == is_absolute(path@),
{
    let p = chars_of(path);
    p.len() > 0 && p[0] == '/'
}

/// `path` taken from the directory `base`, as `Path::join` puts them
/// together: an absolute path stands alone; otherwise a `/` separates the
/// two unless `base` is empty or already ends with one.
pub open spec fn joined_path(base: Seq<char>, path: Seq<char>) -> Seq<char> {
    if is_absolute(path) {
        path
    } else if base.len() == 0 || base.last() == '/' {
        base + path
    } else {
        base + seq!['/'] + path
    }
}

/// The absolute, cleaned form of `path`, taken from the directory
/// `current_dir` when it is relative.
pub fn resolve_path(current_dir: &str, path: &str) -> (r: String)
    ensures
        r@ == cleaned_path(joined_path(current_dir@, path@)),
        is_absolute(current_dir@) || is_absolute(path@) ==> is_absolute(r@),
        is_absolute(current_dir@) || is_absolute(path@) ==> forall|dir: Seq<char>|
            #[trigger] cleaned_path(joined_path(dir, r@)) == r@,
{
    let p = chars_of(path);
    if p.len() > 0 && p[0] == '/' {
        let r = clean_path(path);
        proof {
            assert forall|dir: Seq<char>| #[trigger] cleaned_path(joined_path(dir, r@)) == r@ by {
                assert(joined_path(dir, r@) == r@);
            }
        }
        return r;
    }
    let b = chars_of(current_dir);
    let joined = if b.len() == 0 || b[b.len() - 1] == '/' {
        concat(current_dir, path)
    } else {
        let a = concat(current_dir, "/");
        proof {
            reveal_strlit("/");
        }
        concat(a.as_str(), path)
    };
    proof {
        if b@.len() > 0 {
            assert(b@.last() == b@[b@.len() - 1]);
        }
        assert(joined@ =~= joined_path(current_dir@, path@));
        if is_absolute(current_dir@) {
            assert(joined@[0] == current_dir@[0]);
        }
    }
    let r = clean_path(joined.as_str());
    proof {
        if is_absolute(current_dir@) || is_absolute(path@) {
            assert forall|dir: Seq<char>| #[trigger] cleaned_path(joined_path(dir, r@)) == r@ by {
                assert(joined_path(dir, r@) == r@);
            }
        }
    }
    r
}

/// The text to write: `content`, with a final line feed added when one is
/// asked for and missing.
pub open spec fn text_to_write(content: Seq<char>, ensure_trailing_newline: bool) -> Seq<char> {
    if !ensure_trailing_newline || (content.len() > 0 && content.last() == '\n') {
        content
    } else {
        content.push('\n')
    }
}

/// The text to write for `content`.
pub fn with_trailing_newline(content: &str, ensure_trailing_newline: bool) -> (r: String)
    ensures
        r@ == text_to_write(content@, ensure_trailing_newline),
{
    let c = chars_of(content);
    if !ensure_trailing_newline || (c.len() > 0 && c[c.len() - 1] == '\n') {
        proof {
            if c@.len() > 0 {
                assert(c@.last() == c@[c@.len() - 1]);
            }
        }
        return content.to_owned();
    }
    let mut out = c;
    out.push('\n');
    proof {
        if c@.len() > 0 {
            assert(c@.last() == c@[c@.len() - 1]);
        }
    }
    string_from_chars(&out)
}

/// `p` split at every `/`.
pub open spec fn slash_pieces(p: Seq<char>) -> Seq<Seq<char>>
    decreases p.len(),
{
    if p.len() == 0 {
        seq![Seq::empty()]
    } else {
        let q = slash_pieces(p.drop_last());
        if p.last() == '/' {
            q.push(Seq::empty())
        } else {
            q.update(q.len() - 1, q.last().push(p.last()))
        }
    }
}

proof fn lemma_slash_pieces_nonempty(p: Seq<char>)
    ensures
        slash_pieces(p).len() >= 1,
    decreases p.len(),
{
    if p.len() > 0 {
        lemma_slash_pieces_nonempty(p.drop_last());
    }
}

/// A piece between slashes names a component of the path when it is neither
/// empty nor `.`; a `.` counts only as the first piece.
pub open spec fn is_component(piece: Seq<char>, first: bool) -> bool {
    (piece.len() > 0 && piece != seq!['.']) || (first && piece == seq!['.'])
}

/// The pieces that name components, in order.
pub open spec fn kept_pieces(ps: Seq<Seq<char>>) -> Seq<Seq<char>>
    decreases ps.len(),
{
    if ps.len() == 0 {
        ps
    } else if is_component(ps.last(), ps.len() == 1) {
        kept_pieces(ps.drop_last()).push(ps.last())
    } else {
        kept_pieces(ps.drop_last())
    }
}

/// The components of a path, as `Path::components` gives them: the root
/// (written `/`) when the path starts with one, then the pieces between
/// slashes without the empty ones and without `.`, except a `.` that begins
/// a relative path. Two paths are the same path when their components agree.
pub open spec fn path_components(p: Seq<char>) -> Seq<Seq<char>> {
    (if p.len() > 0 && p[0] == '/' {
        seq![seq!['/']]
    } else {
        Seq::empty()
    }) + kept_pieces(slash_pieces(p))
}

/// The texts of a list of character vectors.
pub open spec fn char_seqs(v: Seq<Vec<char>>) -> Seq<Seq<char>> {
    v.map_values(|w: Vec<char>| w@)
}

fn is_component_exec(piece: &Vec<char>, first: bool) -> (r: bool)
    ensures
        r == is_component(piece@, first),
{
    let dot = piece.len() == 1 && piece[0] == '.';
    proof {
        if piece@.len() == 1 {
            assert(dot == (piece@ =~= seq!['.']));
        } else {
            assert(!(piece@ =~= seq!['.']));
        }
    }
    (piece.len() > 0 && !dot) || (first && dot)
}

/// The components of a path.
fn components_of(p: &str) -> (r: Vec<Vec<char>>)
    ensures
        char_seqs(r@) == path_components(p@),
{
    let c = chars_of(p);
    let mut out: Vec<Vec<char>> = Vec::new();
    if c.len() > 0 && c[0] == '/' {
        let mut root: Vec<char> = Vec::new();
        root.push('/');
        out.push(root);
        proof {
            assert(char_seqs(out@) =~= seq![seq!['/']]);
        }
    } else {
        assert(char_seqs(out@) =~= Seq::<Seq<char>>::empty());
    }
    let ghost start = char_seqs(out@);
    let mut piece: Vec<char> = Vec::new();
    let mut count: usize = 0;
    let mut i: usize = 0;
    proof {
        assert(c@.take(0) =~= Seq::<char>::empty());
        assert(slash_pieces(c@.take(0)) =~= seq![Seq::<char>::empty()]);
        assert(slash_pieces(c@.take(0)).drop_last() =~= Seq::<Seq<char>>::empty());
    }
    while i < c.len()
        invariant
            i <= c@.len(),
            c@ == p@,
            count <= i,
            slash_pieces(c@.take(i as int)).len() == count + 1,
            piece@ == slash_pieces(c@.take(i as int)).last(),
            char_seqs(out@) == start + kept_pieces(slash_pieces(c@.take(i as int)).drop_last()),
        decreases c@.len() - i,
    {
        let ghost q = slash_pieces(c@.take(i as int));
        proof {
            assert(c@.take(i + 1).drop_last() =~= c@.take(i as int));
            assert(c@.take(i + 1).last() == c@[i as int]);
            assert(q.drop_last().push(q.last()) =~= q);
        }
        if c[i] == '/' {
            let keep = is_component_exec(&piece, count == 0);
            let ghost before = char_seqs(out@);
            if keep {
                out.push(piece);
                proof {
                    assert(char_seqs(out@) =~= before.push(q.last()));
                }
            }
            piece = Vec::new();
            proof {
                assert(slash_pieces(c@.take(i + 1)) == q.push(Seq::empty()));
                assert(q.push(Seq::<char>::empty()).drop_last() =~= q);
                assert(kept_pieces(q) == if is_component(q.last(), q.len() == 1) {
                    kept_pieces(q.drop_last()).push(q.last())
                } else {
                    kept_pieces(q.drop_last())
                });
                assert(char_seqs(out@) =~= start + kept_pieces(q));
            }
            count = count + 1;
        } else {
            piece.push(c[i]);
            proof {
                let u = q.update(q.len() - 1, q.last().push(c@[i as int]));
                assert(slash_pieces(c@.take(i + 1)) == u);
                assert(u.drop_last() =~= q.drop_last());
            }
        }
        i = i + 1;
    }
    proof {
        assert(c@.take(c@.len() as int) =~= c@);
    }
    let ghost q = slash_pieces(p@);
    let keep = is_component_exec(&piece, count == 0);
    let ghost before = char_seqs(out@);
    if keep {
        out.push(piece);
        proof {
            assert(char_seqs(out@) =~= before.push(q.last()));
        }
    }
    proof {
        assert(q.drop_last().push(q.last()) =~= q);
        assert(char_seqs(out@) =~= start + kept_pieces(q));
    }
    out
}

/// Whether two character vectors hold the same text.
fn same_chars(a: &Vec<char>, b: &Vec<char>) -> (r: bool)
    ensures
        r == (a@ == b@),
{
    if a.len() != b.len() {
        return false;
    }
    let mut i: usize = 0;
    while i < a.len()
        invariant
            i <= a@.len(),
            a@.len() == b@.len(),
            forall|t: int| 0 <= t < i ==> a@[t] == b@[t],
        decreases a@.len() - i,
    {
        if a[i] != b[i] {
            return false;
        }
        i = i + 1;
    }
    assert(a@ =~= b@);
    true
}

/// Whether `a` and `b` are the same path: their components agree.
pub fn same_path(a: &str, b: &str) -> (r: bool)
    ensures
        r == (path_components(a@) == path_components(b@)),
{
    let x = components_of(a);
    let y = components_of(b);
    if x.len() != y.len() {
        proof {
            assert(char_seqs(x@).len() != char_seqs(y@).len());
        }
        return false;
    }
    let mut i: usize = 0;
    while i < x.len()
        invariant
            i <= x@.len(),
            x@.len() == y@.len(),
            char_seqs(x@) == path_components(a@),
            char_seqs(y@) == path_components(b@),
            forall|t: int| 0 <= t < i ==> x@[t]@ == y@[t]@,
        decreases x@.len() - i,
    {
        if !same_chars(&x[i], &y[i]) {
            proof {
                assert(char_seqs(x@)[i as int] != char_seqs(y@)[i as int]);
            }
            return false;
        }
        i = i + 1;
    }
    assert(char_seqs(x@) =~= char_seqs(y@));
    true
}

} // verus!
