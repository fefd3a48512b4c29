//! The rules the surrounding viewer applies to a vault's file listing: which
//! note opens first, and how tree entries are ordered for display.

use vstd::prelude::*;

use crate::index::path_views;
use crate::lit::lit_index_md;
use crate::lit::lit_readme_md;
use crate::lit::push_index_md;
use crate::lit::push_readme_md;
use crate::resolve::spec_ascii_lower;
use crate::strutil::bytes_eq;
use crate::strutil::lex_le;
use crate::strutil::lex_le_bytes;

verus! {

/// Display order of two tree entries: directories before files; among files,
/// a readme first; otherwise by lower-cased name.
pub open spec fn spec_tree_le(
    a_is_dir: bool,
    a_name: Seq<u8>,
    b_is_dir: bool,
    b_name: Seq<u8>,
) -> bool {
    if a_is_dir != b_is_dir {
        a_is_dir
    } else if !a_is_dir && spec_ascii_lower(a_name) == lit_readme_md() && spec_ascii_lower(
        b_name,
    ) != lit_readme_md() {
        true
    } else if !a_is_dir && spec_ascii_lower(b_name) == lit_readme_md() && spec_ascii_lower(
        a_name,
    ) != lit_readme_md() {
        false
    } else {
        lex_le(spec_ascii_lower(a_name), spec_ascii_lower(b_name))
    }
}

fn lower_of(v: &Vec<u8>) -> (r: Vec<u8>)
    ensures
        r@ == spec_ascii_lower(v@),
{
    let mut out: Vec<u8> = Vec::new();
    let mut i: usize = 0;
    while i < v.len()
        invariant
            i <= v.len(),
            out@.len() == i,
            forall|j: int|
                0 <= j < i ==> out@[j] == (if 65 <= v@[j] && v@[j] <= 90 {
                    (v@[j] + 32) as u8
                } else {
                    v@[j]
                }),
        decreases v@.len() - i,
    {
        let b = v[i];
        if 65 <= b && b <= 90 {
            out.push(b + 32);
        } else {
            out.push(b);
        }
        i = i + 1;
    }
    assert(out@ =~= spec_ascii_lower(v@));
    out
}

/// Whether entry `a` sorts at or before entry `b` in the display tree.
pub fn tree_order_le(a_is_dir: bool, a_name: &Vec<u8>, b_is_dir: bool, b_name: &Vec<u8>) -> (r:
    bool)
    ensures
        r == spec_tree_le(a_is_dir, a_name@, b_is_dir, b_name@),
{
    if a_is_dir != b_is_dir {
        return a_is_dir;
    }
    let la = lower_of(a_name);
    let lb = lower_of(b_name);
    let mut readme: Vec<u8> = Vec::new();
    push_readme_md(&mut readme);
    assert(readme@ =~= lit_readme_md());
    if !a_is_dir {
        let a_rm = bytes_eq(&la, &readme);
        let b_rm = bytes_eq(&lb, &readme);
        if a_rm && !b_rm {
            return true;
        }
        if b_rm && !a_rm {
            return false;
        }
    }
    lex_le_bytes(&la, &lb)
}

/// Which note of a vault root's markdown files opens first: `index.md` when
/// present, else the first file by name; none when the list is empty.  The
/// result is an index into the given list.
pub fn pick_initial_note(names: &Vec<Vec<u8>>) -> (r: Option<usize>)
    ensures
        match r {
            Some(i) => {
                &&& i < names@.len()
                &&& {
                    ||| path_views(names@)[i as int] == lit_index_md()
                    ||| {
                        &&& forall|j: int|
                            0 <= j < names@.len() ==> path_views(names@)[j] != lit_index_md()
                        &&& forall|j: int|
                            0 <= j < names@.len() ==> lex_le(
                                path_views(names@)[i as int],
                                #[trigger] path_views(names@)[j],
                            )
                    }
                }
            },
            None => names@.len() == 0,
        },
{
    let mut target: Vec<u8> = Vec::new();
    push_index_md(&mut target);
    assert(target@ =~= lit_index_md());
    let mut i: usize = 0;
    while i < names.len()
        invariant
            i <= names.len(),
            target@ == lit_index_md(),
            forall|j: int| 0 <= j < i ==> path_views(names@)[j] != lit_index_md(),
        decreases names@.len() - i,
    {
        if bytes_eq(&names[i], &target) {
            assert(path_views(names@)[i as int] == lit_index_md());
            return Some(i);
        }
        i = i + 1;
    }
    if names.len() == 0 {
        return None;
    }
    proof {
        crate::strutil::lemma_lex_le_total(names@[0]@, names@[0]@);
    }
    let mut best: usize = 0;
    let mut k: usize = 1;
    while k < names.len()
        invariant
            best < k <= names.len(),
            forall|j: int| 0 <= j < k ==> lex_le(names@[best as int]@, (#[trigger] names@[j])@),
        decreases names@.len() - k,
    {
        if !lex_le_bytes(&names[best], &names[k]) {
            proof {
                crate::strutil::lemma_lex_le_total(names@[best as int]@, names@[k as int]@);
                assert forall|j: int|
                    0 <= j < k + 1 implies lex_le(names@[k as int]@, (#[trigger] names@[j])@) by {
                    if j < k {
                        crate::strutil::lemma_lex_le_trans(
                            names@[k as int]@,
                            names@[best as int]@,
                            names@[j]@,
                        );
                    } else {
                        crate::strutil::lemma_lex_le_total(names@[k as int]@, names@[k as int]@);
                    }
                }
            }
            best = k;
        }
        k = k + 1;
    }
    proof {
        assert forall|j: int|
            0 <= j < names@.len() implies lex_le(
            path_views(names@)[best as int],
            #[trigger] path_views(names@)[j],
        ) by {
            assert(path_views(names@)[j] == names@[j]@);
            assert(lex_le(names@[best as int]@, names@[j]@));
        }
    }
    Some(best)
}

} // verus!
