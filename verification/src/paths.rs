use vstd::prelude::*;

use crate::text::{chars_of, split_chars, split_spec, views};

verus! {

/// `base` joined with `p` as `Path::join` does on Unix: an absolute `p`
/// replaces `base`; otherwise `p` follows `base`, with a `/` between them
/// unless `base` is empty or already ends with one.
pub open spec fn path_joined(base: Seq<char>, p: Seq<char>) -> Seq<char> {
    if p.len() > 0 && p[0] == '/' {
        p
    } else if base.len() > 0 && base.last() != '/' {
        base + seq!['/'] + p
    } else {
        base + p
    }
}

/// The last piece between slashes that names something, skipping empty
/// pieces and `.`, if there is one.
pub open spec fn last_named(pieces: Seq<Seq<char>>) -> Option<Seq<char>>
    decreases pieces.len(),
{
    if pieces.len() == 0 {
        None
    } else if pieces.last().len() > 0 && pieces.last() != seq!['.'] {
        Some(pieces.last())
    } else {
        last_named(pieces.drop_last())
    }
}

/// The final component of the path `p` where it is a name, as
/// `Path::file_name` gives it on Unix: nothing for a path that ends in `..`,
/// is a root, or holds only `.` and slashes.
pub open spec fn path_file_name(p: Seq<char>) -> Option<Seq<char>> {
    match last_named(split_spec(p, '/')) {
        Some(s) => if s == seq!['.', '.'] {
            None
        } else {
            Some(s)
        },
        None => None,
    }
}

/// What `Path::parent` gives for the path `p`, as text.
pub uninterp spec fn path_parent(p: Seq<char>) -> Option<Seq<char>>;

/// An optional string, by its characters.
pub open spec fn opt_string_view(s: Option<String>) -> Option<Seq<char>> {
    match s {
        Some(t) => Some(t@),
        None => None,
    }
}

/// `base` joined with `p` as a path.
pub fn join_path(base: &str, p: &str) -> (r: String)
    ensures
        r@ == path_joined(base@, p@),
{
    let pc = chars_of(p);
    let bc = chars_of(base);
    if pc.len() > 0 && pc[0] == '/' {
        return p.to_owned();
    }
    let mut r = base.to_owned();
    if bc.len() > 0 && bc[bc.len() - 1] != '/' {
        crate::text::push_char(&mut r, '/');
    }
    r.append(p);
    r
}

/// The final component of the path `p` where it is a name.
pub fn file_name(p: &str) -> (r: Option<String>)
    ensures
        opt_string_view(r) == path_file_name(p@),
{
    let pieces = split_chars(&chars_of(p), '/');
    let ghost pv = views(pieces@);
    let mut k = pieces.len();
    assert(pv.take(k as int) =~= pv);
    while k > 0
        invariant
            k <= pieces@.len(),
            pv == views(pieces@),
            pv == split_spec(p@, '/'),
            last_named(pv) == last_named(pv.take(k as int)),
        decreases k,
    {
        let piece = chars_of(pieces[k - 1].as_str());
        let ghost t = pv.take(k as int);
        assert(t.last() == pieces@[k - 1]@);
        assert(t.drop_last() =~= pv.take(k - 1));
        let is_dot = piece.len() == 1 && piece[0] == '.';
        proof {
            if is_dot {
                assert(piece@ =~= seq!['.']);
            } else if piece@.len() == 1 {
                assert(piece@ != seq!['.']) by {
                    assert(seq!['.'][0] == '.');
                }
            }
        }
        if piece.len() > 0 && !is_dot {
            let dotdot = piece.len() == 2 && piece[0] == '.' && piece[1] == '.';
            proof {
                if dotdot {
                    assert(piece@ =~= seq!['.', '.']);
                } else {
                    assert(piece@ != seq!['.', '.']) by {
                        if piece@.len() == 2 {
                            assert(seq!['.', '.'][0] == '.' && seq!['.', '.'][1] == '.');
                        }
                    }
                }
            }
            assert(last_named(pv.take(k as int)) == Some(piece@));
            if dotdot {
                return None;
            }
            return Some(pieces[k - 1].clone());
        }
        k = k - 1;
    }
    assert(pv.take(0) =~= Seq::<Seq<char>>::empty());
    None
}

/// `Path::parent` of `p`: the claim is only that the result is the one
/// function of `p` named `path_parent` (the path is built from a `&str`, so
/// its text converts back without loss).
#[verifier::external_body]
pub(crate) fn parent_of(p: &str) -> (r: Option<String>)
    ensures
        opt_string_view(r) == path_parent(p@),
{
    match std::path::Path::new(p).parent() {
        Some(d) => Some(d.to_string_lossy().into_owned()),
        None => None,
    }
}

} // verus!
