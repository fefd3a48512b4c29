//! Resolving one parsed reference against the vault index.

use vstd::prelude::*;

use crate::index::IndexView;
use crate::index::VaultIndex;
use crate::index::normalize_rel_key;
use crate::index::path_views;
use crate::index::sorted_paths;
use crate::index::spec_basename;
use crate::index::spec_normalize_rel_key;
use crate::lit::lit_ext_jpeg;
use crate::lit::lit_ext_jpg;
use crate::lit::lit_ext_md;
use crate::lit::lit_ext_pdf;
use crate::lit::lit_ext_png;
use crate::lit::lit_ext_svg;
use crate::lit::lit_md_suffix;
use crate::lit::push_ext_jpeg;
use crate::lit::push_ext_jpg;
use crate::lit::push_ext_md;
use crate::lit::push_ext_pdf;
use crate::lit::push_ext_png;
use crate::lit::push_ext_svg;
use crate::lit::push_md_suffix;
use crate::parse::ParsedLink;
use crate::parse::ParsedLinkV;
use crate::strutil::bytes_eq;
use crate::strutil::contains_byte;
use crate::strutil::ends_with;
use crate::strutil::lemma_rfind_byte;
use crate::strutil::lex_le;
use crate::strutil::rfind_byte;
use crate::strutil::spec_contains_byte;
use crate::strutil::spec_ends_with;
use crate::strutil::spec_rfind_byte;
use crate::strutil::spec_trim;
use crate::strutil::subvec;
use crate::strutil::trim_bytes;

verus! {

/// The outcome of resolving a reference: a note to render, a non-note asset,
/// nothing, or (never produced by the current policy) an ambiguous set.
pub enum ResolveResult {
    Resolved(Vec<u8>),
    Placeholder(Vec<u8>),
    NotFound,
    Ambiguous(Vec<Vec<u8>>),
}

/// Spec-level mirror of `ResolveResult`.
pub enum ResolveResultV {
    Resolved(Seq<u8>),
    Placeholder(Seq<u8>),
    NotFound,
    Ambiguous(Seq<Seq<u8>>),
}

impl View for ResolveResult {
    type V = ResolveResultV;

    open spec fn view(&self) -> ResolveResultV {
        match self {
            ResolveResult::Resolved(p) => ResolveResultV::Resolved(p@),
            ResolveResult::Placeholder(p) => ResolveResultV::Placeholder(p@),
            ResolveResult::NotFound => ResolveResultV::NotFound,
            ResolveResult::Ambiguous(ps) => ResolveResultV::Ambiguous(path_views(ps@)),
        }
    }
}

/// Lower-cased ASCII.
pub open spec fn spec_ascii_lower(s: Seq<u8>) -> Seq<u8> {
    s.map_values(
        |b: u8|
            if 65 <= b && b <= 90 {
                (b + 32) as u8
            } else {
                b
            },
    )
}

/// The lower-cased extension of a path's basename: what follows the last dot,
/// unless the dot is missing or leads the basename.
pub open spec fn spec_ext_lower(p: Seq<u8>) -> Seq<u8> {
    let b = spec_basename(p);
    let d = spec_rfind_byte(b, b.len() as int, 46);
    if d <= 0 {
        Seq::empty()
    } else {
        spec_ascii_lower(b.subrange(d + 1, b.len() as int))
    }
}

/// How a resolved path is classified: markdown renders as a note, known
/// binary formats become asset placeholders, anything else is treated as a
/// note.
pub open spec fn spec_path_to_result(p: Seq<u8>) -> ResolveResultV {
    let ext = spec_ext_lower(p);
    if ext == lit_ext_md() {
        ResolveResultV::Resolved(p)
    } else if ext == lit_ext_png() || ext == lit_ext_jpg() || ext == lit_ext_jpeg() || ext
        == lit_ext_svg() || ext == lit_ext_pdf() {
        ResolveResultV::Placeholder(p)
    } else {
        ResolveResultV::Resolved(p)
    }
}

/// How a reference resolves: an empty target finds nothing; a target with a
/// path separator must match a relative key exactly (with `.md` appended if
/// missing); a bare name is looked up by stem, the first path of the sorted
/// bucket winning.
pub open spec fn spec_resolve_target(p: ParsedLinkV, ix: IndexView) -> ResolveResultV {
    let target = spec_normalize_rel_key(spec_trim(p.target));
    if target.len() == 0 {
        ResolveResultV::NotFound
    } else if spec_contains_byte(target, 47) {
        let with_md = if spec_ends_with(target, lit_md_suffix()) {
            target
        } else {
            target + lit_md_suffix()
        };
        if ix.rel.contains_key(target) {
            spec_path_to_result(ix.rel[target])
        } else if ix.rel.contains_key(with_md) {
            spec_path_to_result(ix.rel[with_md])
        } else {
            ResolveResultV::NotFound
        }
    } else {
        let base = if spec_ends_with(target, lit_md_suffix()) {
            target.subrange(0, target.len() - 3)
        } else {
            target
        };
        if ix.base.contains_key(base) {
            let bucket = ix.base[base];
            if bucket.len() == 0 {
                ResolveResultV::NotFound
            } else {
                spec_path_to_result(bucket[0])
            }
        } else {
            ResolveResultV::NotFound
        }
    }
}

/// Classify a resolved path by its extension.
fn path_to_result(p: Vec<u8>) -> (r: ResolveResult)
    ensures
        r@ == spec_path_to_result(p@),
{
    proof {
        lemma_rfind_byte(p@, p@.len() as int, 47);
    }
    let sl = rfind_byte(&p, p.len(), 47);
    let bstart: usize = match sl {
        Some(j) => j + 1,
        None => 0,
    };
    let base = subvec(&p, bstart, p.len());
    proof {
        assert(base@ =~= spec_basename(p@));
        lemma_rfind_byte(base@, base@.len() as int, 46);
    }
    let dot = rfind_byte(&base, base.len(), 46);
    let ext: Vec<u8> = match dot {
        Some(d) if d > 0 => {
            let raw = subvec(&base, d + 1, base.len());
            let mut low: Vec<u8> = Vec::new();
            let mut i: usize = 0;
            while i < raw.len()
                invariant
                    i <= raw.len(),
                    low@.len() == i,
                    forall|j: int|
                        0 <= j < i ==> low@[j] == (if 65 <= raw@[j] && raw@[j] <= 90 {
                            (raw@[j] + 32) as u8
                        } else {
                            raw@[j]
                        }),
                decreases raw@.len() - i,
            {
                let b = raw[i];
                if 65 <= b && b <= 90 {
                    low.push(b + 32);
                } else {
                    low.push(b);
                }
                i = i + 1;
            }
            proof {
                assert(low@ =~= spec_ascii_lower(raw@));
            }
            low
        },
        _ => Vec::new(),
    };
    assert(ext@ =~= spec_ext_lower(p@));
    let mut w: Vec<u8> = Vec::new();
    push_ext_md(&mut w);
    if bytes_eq(&ext, &w) {
        return ResolveResult::Resolved(p);
    }
    let mut w2: Vec<u8> = Vec::new();
    push_ext_png(&mut w2);
    let mut w3: Vec<u8> = Vec::new();
    push_ext_jpg(&mut w3);
    let mut w4: Vec<u8> = Vec::new();
    push_ext_jpeg(&mut w4);
    let mut w5: Vec<u8> = Vec::new();
    push_ext_svg(&mut w5);
    let mut w6: Vec<u8> = Vec::new();
    push_ext_pdf(&mut w6);
    if bytes_eq(&ext, &w2) || bytes_eq(&ext, &w3) || bytes_eq(&ext, &w4) || bytes_eq(&ext, &w5)
        || bytes_eq(&ext, &w6) {
        return ResolveResult::Placeholder(p);
    }
    ResolveResult::Resolved(p)
}

/// Resolve a parsed reference against the index.  The vault root plays no
/// part in the current policy and is accepted only to complete the call
/// shape.
pub fn resolve_target(parsed: &ParsedLink, index: &VaultIndex, _vault_root: &Vec<u8>) -> (r:
    ResolveResult)
    requires
        index.wf(),
    ensures
        r@ == spec_resolve_target(parsed@, index@),
{
    let trimmed = trim_bytes(&parsed.target);
    let target = normalize_rel_key(&trimmed);
    if target.len() == 0 {
        return ResolveResult::NotFound;
    }
    let mut md: Vec<u8> = Vec::new();
    push_md_suffix(&mut md);
    assert(md@ =~= lit_md_suffix());
    if contains_byte(&target, 47) {
        match index.rel_get(&target) {
            Some(p) => {
                let c = subvec(p, 0, p.len());
                assert(c@ =~= p@);
                return path_to_result(c);
            },
            None => {},
        }
        let with_md: Vec<u8> = if ends_with(&target, &md) {
            target
        } else {
            let mut t2 = target;
            push_md_suffix(&mut t2);
            t2
        };
        match index.rel_get(&with_md) {
            Some(p) => {
                let c = subvec(p, 0, p.len());
                assert(c@ =~= p@);
                return path_to_result(c);
            },
            None => {},
        }
        return ResolveResult::NotFound;
    }
    let base: Vec<u8> = if ends_with(&target, &md) {
        subvec(&target, 0, target.len() - 3)
    } else {
        target
    };
    match index.base_get(&base) {
        Some(bucket) => {
            if bucket.len() == 0 {
                return ResolveResult::NotFound;
            }
            let first = subvec(&bucket[0], 0, bucket[0].len());
            proof {
                assert(first@ =~= index@.base[base@][0]);
            }
            path_to_result(first)
        },
        None => ResolveResult::NotFound,
    }
}

/// The stem a bare (separator-free) target is looked up by.
pub open spec fn spec_basename_key(p: ParsedLinkV) -> Seq<u8> {
    let target = spec_normalize_rel_key(spec_trim(p.target));
    if spec_ends_with(target, lit_md_suffix()) {
        target.subrange(0, target.len() - 3)
    } else {
        target
    }
}

/// Resolving a bare name that several notes share picks the path that sorts
/// first in the stem's bucket: the same one on every call, and no later
/// bucket entry ever beats it.
pub proof fn lemma_resolve_basename_min(parsed: ParsedLinkV, index: &VaultIndex)
    requires
        index.wf(),
        spec_normalize_rel_key(spec_trim(parsed.target)).len() > 0,
        !spec_contains_byte(spec_normalize_rel_key(spec_trim(parsed.target)), 47),
        index@.base.contains_key(spec_basename_key(parsed)),
    ensures
        ({
            let bucket = index@.base[spec_basename_key(parsed)];
            &&& bucket.len() > 0
            &&& spec_resolve_target(parsed, index@) == spec_path_to_result(bucket[0])
            &&& forall|j: int| 0 <= j < bucket.len() ==> lex_le(bucket[0], #[trigger] bucket[j])
        }),
{
    index.lemma_bucket_sorted(spec_basename_key(parsed));
    let bucket = index@.base[spec_basename_key(parsed)];
    assert(sorted_paths(bucket));
    assert forall|j: int| 0 <= j < bucket.len() implies lex_le(bucket[0], #[trigger] bucket[j]) by {
        if j > 0 {
            assert(lex_le(bucket[0], bucket[j]));
        } else {
            crate::strutil::lemma_lex_le_total(bucket[0], bucket[0]);
        }
    }
}

} // verus!
