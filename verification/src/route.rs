use vstd::prelude::*;
use vstd::set_lib::lemma_len_subset;
use vstd::string::StringExecFns;
use crate::config::FileExtension;
use crate::paths::{
    base_name, base_name_of, ext_of, has_extension, name_has_extension, split_name, stem_of,
};
use crate::hash::{sha256_hex, sha256_hex_of};
use crate::strutil::{decimal, lemma_decimal_injective, u64_to_string};

verus! {

/// What `str::to_lowercase` returns: a function of the characters alone.
pub uninterp spec fn lower_of(s: Seq<char>) -> Seq<char>;

/// Relies on std's `str::to_lowercase`: the Unicode lowercase form of
/// the string, depending on nothing but its characters; an empty string
/// stays empty.
#[verifier::external_body]
fn to_lowercase(s: &str) -> (r: String)
    ensures
        r@ == lower_of(s@),
        s@.len() == 0 ==> r@.len() == 0,
{
    s.to_lowercase()
}

/// Whether rule `e` matches files with extension `ext`: the names agree
/// once both are folded to lowercase.
pub open spec fn rule_matches(e: FileExtension, ext: Seq<char>) -> bool {
    lower_of(e.name@) == lower_of(ext)
}

/// Finds the first extension rule matching the extension of the file
/// `path` names, comparing case-insensitively; `None` when the name has
/// no extension or no rule matches.
pub fn get_extension_from_config<'a>(path: &String, extensions: &'a Vec<FileExtension>) -> (r:
    Option<&'a FileExtension>)
    ensures
        ({
            let base = base_name_of(path@);
            &&& (r is Some <==> has_extension(base) && exists|i: int|
                0 <= i < extensions@.len() && rule_matches(#[trigger] extensions@[i], ext_of(base)))
            &&& (r matches Some(e) ==> exists|i: int|
                {
                    &&& 0 <= i < extensions@.len()
                    &&& rule_matches(#[trigger] extensions@[i], ext_of(base))
                    &&& forall|j: int|
                        0 <= j < i ==> !rule_matches(#[trigger] extensions@[j], ext_of(base))
                    &&& e.name@ == extensions@[i].name@
                    &&& e.path@ == extensions@[i].path@
                })
        }),
{
    let base = base_name(path);
    if !name_has_extension(&base) {
        return None;
    }
    let (_, ext) = split_name(&base);
    let ext_lower = to_lowercase(ext.as_str());
    let n = extensions.len();
    let mut i: usize = 0;
    while i < n
        invariant
            i <= n,
            n == extensions@.len(),
            has_extension(base_name_of(path@)),
            ext@ == ext_of(base_name_of(path@)),
            ext_lower@ == lower_of(ext_of(base_name_of(path@))),
            forall|j: int|
                0 <= j < i ==> !rule_matches(#[trigger] extensions@[j], ext_of(base_name_of(path@))),
        decreases n - i,
    {
        let rule_lower = to_lowercase(extensions[i].name.as_str());
        if rule_lower.eq(&ext_lower) {
            proof {
                assert(rule_matches(extensions@[i as int], ext_of(base_name_of(path@))));
            }
            return Some(&extensions[i]);
        }
        i += 1;
    }
    proof {
        if exists|i: int|
            0 <= i < extensions@.len() && rule_matches(
                #[trigger] extensions@[i],
                ext_of(base_name_of(path@)),
            ) {
            let i = choose|i: int|
                0 <= i < extensions@.len() && rule_matches(
                    #[trigger] extensions@[i],
                    ext_of(base_name_of(path@)),
                );
            assert(!rule_matches(extensions@[i], ext_of(base_name_of(path@))));
        }
    }
    None
}

/// The views of a destination listing: each file name with its digest.
pub open spec fn listing_view(s: Seq<(String, String)>) -> Seq<(Seq<char>, Seq<char>)> {
    Seq::new(s.len(), |i: int| (s[i].0@, s[i].1@))
}

/// The destination listing holds each file name once.
pub open spec fn listing_wf(lv: Seq<(Seq<char>, Seq<char>)>) -> bool {
    forall|i: int, j: int| 0 <= i < j < lv.len() ==> (#[trigger] lv[i]).0 != (#[trigger] lv[j]).0
}

/// The `n`-th candidate target name for `name`: the name itself, then
/// the stem with `_1`, `_2`, ... wedged in before the extension.
pub open spec fn candidate_name(name: Seq<char>, n: nat) -> Seq<char> {
    if n == 0 {
        name
    } else {
        stem_of(name) + seq!['_'] + decimal(n) + seq!['.'] + ext_of(name)
    }
}

/// Whether content with digest `digest` may land under `target`: the
/// slot is vacant, or already holds content with the same digest.
pub open spec fn slot_free(
    lv: Seq<(Seq<char>, Seq<char>)>,
    target: Seq<char>,
    digest: Seq<char>,
) -> bool {
    forall|i: int| 0 <= i < lv.len() && (#[trigger] lv[i]).0 == target ==> lv[i].1 == digest
}

/// `r` is the resolved target for `name` with digest `digest`: the
/// first candidate name whose slot is free or content-identical.
pub open spec fn is_unique_target(
    lv: Seq<(Seq<char>, Seq<char>)>,
    name: Seq<char>,
    digest: Seq<char>,
    r: Seq<char>,
) -> bool {
    exists|n: nat|
        {
            &&& r == candidate_name(name, n)
            &&& #[trigger] slot_free(lv, candidate_name(name, n), digest)
            &&& forall|m: nat| m < n ==> !slot_free(lv, #[trigger] candidate_name(name, m), digest)
        }
}

/// Distinct counters give distinct candidate names.
proof fn lemma_candidate_injective(name: Seq<char>, a: nat, b: nat)
    requires
        1 <= a,
        1 <= b,
        candidate_name(name, a) == candidate_name(name, b),
    ensures
        a == b,
{
    let s = stem_of(name);
    let e = ext_of(name);
    let ca = candidate_name(name, a);
    let cb = candidate_name(name, b);
    assert(ca.len() == s.len() + 1 + decimal(a).len() + 1 + e.len());
    assert(cb.len() == s.len() + 1 + decimal(b).len() + 1 + e.len());
    assert(decimal(a).len() == decimal(b).len());
    assert(decimal(a) =~= ca.subrange(s.len() as int + 1, s.len() as int + 1 + decimal(a).len()));
    assert(decimal(b) =~= cb.subrange(s.len() as int + 1, s.len() as int + 1 + decimal(b).len()));
    lemma_decimal_injective(a, b);
}

/// Candidate names are pairwise distinct, so the listing cannot occupy
/// them all: some candidate no further than one past the listing length
/// has a free or content-identical slot.
proof fn lemma_candidate_pigeonhole(
    lv: Seq<(Seq<char>, Seq<char>)>,
    name: Seq<char>,
    digest: Seq<char>,
)
    requires
        listing_wf(lv),
    ensures
        exists|m: nat|
            1 <= m <= lv.len() + 1 && #[trigger] slot_free(lv, candidate_name(name, m), digest),
{
    if !(exists|m: nat|
        1 <= m <= lv.len() + 1 && #[trigger] slot_free(lv, candidate_name(name, m), digest)) {
        let l = lv.len() as int;
        let cands = Seq::new((l + 1) as nat, |i: int| candidate_name(name, (i + 1) as nat));
        let names = Seq::new(l as nat, |i: int| lv[i].0);
        assert forall|i: int, j: int| 0 <= i < j < cands.len() implies cands[i] != cands[j] by {
            if cands[i] == cands[j] {
                lemma_candidate_injective(name, (i + 1) as nat, (j + 1) as nat);
            }
        }
        assert(cands.no_duplicates());
        cands.unique_seq_to_set();
        names.lemma_cardinality_of_set();
        assert forall|x: Seq<char>| #[trigger] cands.to_set().contains(x)
            implies names.to_set().contains(x) by {
            let i = choose|i: int| 0 <= i < cands.len() && cands[i] == x;
            assert(!slot_free(lv, candidate_name(name, (i + 1) as nat), digest));
            let k = choose|k: int|
                0 <= k < lv.len() && (#[trigger] lv[k]).0 == x && lv[k].1 != digest;
            assert(names[k] == x);
            assert(names.contains(x));
        }
        assert(cands.to_set().subset_of(names.to_set()));
        lemma_len_subset(cands.to_set(), names.to_set());
    }
}

/// Builds the candidate name `stem_<n>.<ext>`.
fn build_candidate(stem: &String, n: u64, ext: &String) -> (r: String)
    ensures
        r@ == stem@ + seq!['_'] + decimal(n as nat) + seq!['.'] + ext@,
{
    let mut r = stem.clone();
    r.append("_");
    let num = u64_to_string(n);
    r.append(num.as_str());
    r.append(".");
    r.append(ext.as_str());
    proof {
        reveal_strlit("_");
        reveal_strlit(".");
        assert(r@ =~= stem@ + seq!['_'] + decimal(n as nat) + seq!['.'] + ext@);
    }
    r
}

/// Whether `target` is free (or content-identical) in the listing.
fn slot_free_exec(listing: &Vec<(String, String)>, target: &String, digest: &String) -> (r: bool)
    ensures
        r == slot_free(listing_view(listing@), target@, digest@),
{
    let n = listing.len();
    let mut i: usize = 0;
    while i < n
        invariant
            i <= n,
            n == listing@.len(),
            forall|j: int|
                0 <= j < i && (#[trigger] listing_view(listing@)[j]).0 == target@ ==> listing_view(
                    listing@,
                )[j].1 == digest@,
        decreases n - i,
    {
        if listing[i].0.eq(target) && !listing[i].1.eq(digest) {
            proof {
                assert((listing_view(listing@)[i as int]).0 == target@);
            }
            return false;
        }
        i += 1;
    }
    true
}

/// Resolves the collision-free target name for content with digest
/// `digest` and file name `file_name`, against the destination listing
/// (each existing file with its digest): the name itself when vacant or
/// already holding identical content, else the first numbered variant
/// that is.
pub fn get_unique_target(file_name: &String, digest: &String, listing: &Vec<(String, String)>) -> (r:
    String)
    requires
        listing_wf(listing_view(listing@)),
        listing@.len() < usize::MAX - 1,
    ensures
        is_unique_target(listing_view(listing@), file_name@, digest@, r@),
{
    let ghost lv = listing_view(listing@);
    if slot_free_exec(listing, file_name, digest) {
        proof {
            assert(slot_free(lv, candidate_name(file_name@, 0), digest@));
        }
        return file_name.clone();
    }
    let (stem, ext) = split_name(file_name);
    let l = listing.len();
    let mut n: usize = 1;
    loop
        invariant
            1 <= n <= l + 1,
            l == listing@.len(),
            l < usize::MAX - 1,
            lv == listing_view(listing@),
            listing_wf(lv),
            stem@ == stem_of(file_name@),
            ext@ == ext_of(file_name@),
            forall|m: nat| m < n ==> !slot_free(lv, #[trigger] candidate_name(file_name@, m), digest@),
        decreases l + 1 - n,
    {
        let cand = build_candidate(&stem, n as u64, &ext);
        proof {
            assert(cand@ == candidate_name(file_name@, n as nat));
        }
        if slot_free_exec(listing, &cand, digest) {
            return cand;
        }
        proof {
            assert forall|m: nat| m < n + 1 implies !slot_free(
                lv,
                #[trigger] candidate_name(file_name@, m),
                digest@,
            ) by {
                if m == n {
                    assert(!slot_free(lv, cand@, digest@));
                }
            }
            if n == l + 1 {
                lemma_candidate_pigeonhole(lv, file_name@, digest@);
                let m = choose|m: nat|
                    1 <= m <= lv.len() + 1 && #[trigger] slot_free(
                        lv,
                        candidate_name(file_name@, m),
                        digest@,
                    );
                assert(!slot_free(lv, candidate_name(file_name@, m), digest@));
            }
        }
        n += 1;
    }
}

/// The planned move of one settled file: the digest of its content and
/// the resolved collision-free name it takes in the destination.
pub struct MovePlan {
    pub target_name: String,
    pub digest: String,
}

/// Plans the move of one settled file, given its content and the
/// destination listing (each existing file name with its digest):
/// digests the content and resolves the target name against the listing.
pub fn plan_move(file_name: &String, contents: &[u8], listing: &Vec<(String, String)>) -> (p:
    MovePlan)
    requires
        listing_wf(listing_view(listing@)),
        listing@.len() < usize::MAX - 1,
    ensures
        p.digest@ == sha256_hex_of(contents@),
        is_unique_target(listing_view(listing@), file_name@, p.digest@, p.target_name@),
{
    let digest = sha256_hex(contents);
    let target_name = get_unique_target(file_name, &digest, listing);
    MovePlan { target_name, digest }
}

/// Law: unique-target resolution is deterministic — any two names
/// satisfying the resolution contract for the same inputs are equal.
pub proof fn lemma_unique_target_deterministic(
    lv: Seq<(Seq<char>, Seq<char>)>,
    name: Seq<char>,
    digest: Seq<char>,
    r1: Seq<char>,
    r2: Seq<char>,
)
    requires
        is_unique_target(lv, name, digest, r1),
        is_unique_target(lv, name, digest, r2),
    ensures
        r1 == r2,
{
    let n1 = choose|n: nat|
        {
            &&& r1 == candidate_name(name, n)
            &&& #[trigger] slot_free(lv, candidate_name(name, n), digest)
            &&& forall|m: nat| m < n ==> !slot_free(lv, #[trigger] candidate_name(name, m), digest)
        };
    let n2 = choose|n: nat|
        {
            &&& r2 == candidate_name(name, n)
            &&& #[trigger] slot_free(lv, candidate_name(name, n), digest)
            &&& forall|m: nat| m < n ==> !slot_free(lv, #[trigger] candidate_name(name, m), digest)
        };
    if n1 < n2 {
        assert(!slot_free(lv, candidate_name(name, n1), digest));
    }
    if n2 < n1 {
        assert(!slot_free(lv, candidate_name(name, n2), digest));
    }
}

} // verus!
