//! Matching a state dictionary against the entries of a store.
use vstd::prelude::*;
use crate::nn::error::Error;
use crate::nn::store::Kind;

verus! {

/// What a store holds under one key.
#[derive(Debug)]
pub struct EntryInfo {
    pub key: String,
    pub kind: Kind,
    pub shape: Vec<usize>,
}

/// One tensor of a state dictionary: its key, the key it is loaded into
/// (the key after renaming), its kind and its shape.
#[derive(Debug)]
pub struct BlobInfo {
    pub key: String,
    pub target: String,
    pub kind: Kind,
    pub shape: Vec<usize>,
}

/// What loading a state dictionary found: store keys that received nothing,
/// tensors whose key the store lacks, and tensors whose shape or kind
/// differs from the entry of their key.
#[derive(Debug)]
pub struct LoadReport {
    pub missing: Vec<String>,
    pub unexpected: Vec<String>,
    pub mismatched: Vec<(String, Vec<usize>, Vec<usize>)>,
    pub kind_mismatched: Vec<(String, Kind, Kind)>,
}

impl Default for LoadReport {
    fn default() -> (r: Self)
        ensures
            r.missing@.len() == 0,
            r.unexpected@.len() == 0,
            r.mismatched@.len() == 0,
            r.kind_mismatched@.len() == 0,
    {
        LoadReport {
            missing: Vec::new(),
            unexpected: Vec::new(),
            mismatched: Vec::new(),
            kind_mismatched: Vec::new(),
        }
    }
}

/// The outcome of matching: the report or the error, and the pairs
/// `(tensor index, entry index)` whose data is copied. Tensors are loaded
/// one after the other, so the copies made before an error stand.
#[derive(Debug)]
pub struct LoadPlan {
    pub outcome: Result<LoadReport, Error>,
    pub copies: Vec<(usize, usize)>,
}

/// The contents of a list of strings.
pub open spec fn strings_view(v: Seq<String>) -> Seq<Seq<char>> {
    v.map_values(|s: String| s@)
}

/// The contents of a list of shape mismatches.
pub open spec fn mismatches_view(v: Seq<(String, Vec<usize>, Vec<usize>)>) -> Seq<
    (Seq<char>, Seq<usize>, Seq<usize>),
> {
    v.map_values(|t: (String, Vec<usize>, Vec<usize>)| (t.0@, t.1@, t.2@))
}

/// The contents of a list of kind mismatches.
pub open spec fn kind_mismatches_view(v: Seq<(String, Kind, Kind)>) -> Seq<(Seq<char>, Kind, Kind)> {
    v.map_values(|t: (String, Kind, Kind)| (t.0@, t.1, t.2))
}

/// The state of a load after some tensors of the dictionary.
pub ghost struct LoadState {
    pub unexpected: Seq<Seq<char>>,
    pub mismatched: Seq<(Seq<char>, Seq<usize>, Seq<usize>)>,
    pub kind_mismatched: Seq<(Seq<char>, Kind, Kind)>,
    pub copies: Seq<(usize, usize)>,
    pub used: Seq<Seq<char>>,
}

/// The first entry at or after `i` whose key is `key`.
pub open spec fn find_entry_from(entries: Seq<EntryInfo>, key: Seq<char>, i: int) -> Option<int>
    decreases entries.len() - i,
{
    if i < 0 || i >= entries.len() {
        None
    } else if entries[i].key@ == key {
        Some(i)
    } else {
        find_entry_from(entries, key, i + 1)
    }
}

/// The first entry whose key is `key`.
pub open spec fn find_entry(entries: Seq<EntryInfo>, key: Seq<char>) -> Option<int> {
    find_entry_from(entries, key, 0)
}

/// Loading tensor `bi`, `blob`: `None` when its target key was already
/// loaded by an earlier tensor.
pub open spec fn load_step(st: LoadState, entries: Seq<EntryInfo>, blob: BlobInfo, bi: int) -> Option<
    LoadState,
> {
    let k = blob.target@;
    if st.used.contains(k) {
        None
    } else {
        match find_entry(entries, k) {
            None => Some(LoadState { unexpected: st.unexpected.push(blob.key@), ..st }),
            Some(e) => {
                let used = st.used.push(k);
                if entries[e].kind != blob.kind {
                    Some(
                        LoadState {
                            kind_mismatched: st.kind_mismatched.push((k, entries[e].kind, blob.kind)),
                            used,
                            ..st
                        },
                    )
                } else if entries[e].shape@ != blob.shape@ {
                    Some(
                        LoadState {
                            mismatched: st.mismatched.push((k, entries[e].shape@, blob.shape@)),
                            used,
                            ..st
                        },
                    )
                } else {
                    Some(LoadState { copies: st.copies.push((bi as usize, e as usize)), used, ..st })
                }
            },
        }
    }
}

/// The state after the first `i` tensors.
pub open spec fn load_fold(entries: Seq<EntryInfo>, blobs: Seq<BlobInfo>, i: nat) -> Option<LoadState>
    decreases i,
{
    if i == 0 {
        Some(
            LoadState {
                unexpected: Seq::empty(),
                mismatched: Seq::empty(),
                kind_mismatched: Seq::empty(),
                copies: Seq::empty(),
                used: Seq::empty(),
            },
        )
    } else {
        match load_fold(entries, blobs, (i - 1) as nat) {
            None => None,
            Some(st) => load_step(st, entries, blobs[i - 1], i - 1),
        }
    }
}

/// The copies made by the first `i` tensors, or, when one of them fails,
/// by the tensors before it.
pub open spec fn copies_before_failure(entries: Seq<EntryInfo>, blobs: Seq<BlobInfo>, i: nat) -> Seq<
    (usize, usize),
>
    decreases i,
{
    match load_fold(entries, blobs, i) {
        Some(st) => st.copies,
        None => if i == 0 {
            Seq::empty()
        } else {
            copies_before_failure(entries, blobs, (i - 1) as nat)
        },
    }
}

/// The index of the tensor at which loading the first `i` tensors fails:
/// the first one whose target key was already loaded.
pub open spec fn failing_blob(entries: Seq<EntryInfo>, blobs: Seq<BlobInfo>, i: nat) -> int
    decreases i,
{
    if i == 0 {
        0
    } else if load_fold(entries, blobs, (i - 1) as nat) is None {
        failing_blob(entries, blobs, (i - 1) as nat)
    } else {
        i - 1
    }
}

/// The message of the error for a target key `k` met twice.
pub open spec fn duplicate_key_message(k: Seq<char>) -> Seq<char> {
    "load_state_dict: rename produced duplicate key: "@ + k
}

/// The expected keys that no tensor was loaded into, in order.
pub open spec fn missing_keys(expected: Seq<String>, used: Seq<Seq<char>>) -> Seq<Seq<char>>
    decreases expected.len(),
{
    if expected.len() == 0 {
        Seq::empty()
    } else {
        let p = missing_keys(expected.drop_last(), used);
        if used.contains(expected.last()@) {
            p
        } else {
            p.push(expected.last()@)
        }
    }
}

/// A load that found nothing to report.
pub open spec fn load_clean(missing: Seq<Seq<char>>, st: LoadState) -> bool {
    &&& missing.len() == 0
    &&& st.unexpected.len() == 0
    &&& st.mismatched.len() == 0
    &&& st.kind_mismatched.len() == 0
}

fn contains_key(v: &Vec<String>, k: &String) -> (b: bool)
    ensures
        b == strings_view(v@).contains(k@),
{
    let mut i: usize = 0;
    while i < v.len()
        invariant
            i <= v@.len(),
            forall|j: int| 0 <= j < i ==> v@[j]@ != k@,
        decreases v@.len() - i,
    {
        if v[i] == *k {
            assert(strings_view(v@)[i as int] == k@);
            return true;
        }
        i += 1;
    }
    proof {
        if strings_view(v@).contains(k@) {
            let j = choose|j: int| 0 <= j < strings_view(v@).len() && strings_view(v@)[j] == k@;
            assert(v@[j]@ == k@);
        }
    }
    false
}

fn same_dims(a: &[usize], b: &[usize]) -> (r: bool)
    ensures
        r == (a@ == b@),
{
    if a.len() != b.len() {
        return false;
    }
    let mut i: usize = 0;
    while i < a.len()
        invariant
            a@.len() == b@.len(),
            i <= a@.len(),
            forall|k: int| 0 <= k < i ==> a@[k] == b@[k],
        decreases a@.len() - i,
    {
        if a[i] != b[i] {
            return false;
        }
        i += 1;
    }
    assert(a@ =~= b@);
    true
}

fn find_entry_index(entries: &[EntryInfo], k: &String) -> (r: Option<usize>)
    ensures
        r matches Some(e) ==> find_entry(entries@, k@) == Some(e as int) && e < entries@.len(),
        r is None ==> find_entry(entries@, k@) is None,
{
    let mut i: usize = 0;
    while i < entries.len()
        invariant
            i <= entries@.len(),
            find_entry(entries@, k@) == find_entry_from(entries@, k@, i as int),
        decreases entries@.len() - i,
    {
        if entries[i].key == *k {
            return Some(i);
        }
        i += 1;
    }
    None
}

/// The `Debug` text of a report, written by std's `format!`; nothing is
/// claimed of the text, which only goes into an error message.
#[verifier::external_body]
fn describe_report(report: &LoadReport) -> String {
    format!("{report:?}")
}

/// Matches the tensors of a state dictionary, in order, against the entries
/// of a store: a tensor whose target key the store lacks is unexpected; one
/// whose entry has another kind or shape is reported; the others are
/// copied. A target key met twice is an error (the tensors before it are
/// loaded), and so, when `strict`, is any report (all tensors are loaded).
/// `expected_keys` are the store's keys, in the order in which missing ones
/// are reported.
pub fn plan_load_state_dict(
    entries: &[EntryInfo],
    expected_keys: &[String],
    blobs: &[BlobInfo],
    strict: bool,
) -> (r: LoadPlan)
    ensures
        r.copies@ == copies_before_failure(entries@, blobs@, blobs@.len()),
        match load_fold(entries@, blobs@, blobs@.len()) {
            None => r.outcome matches Err(Error::State(m)) && m@ == duplicate_key_message(
                blobs@[failing_blob(entries@, blobs@, blobs@.len())].target@,
            ),
            Some(st) => {
                let missing = missing_keys(expected_keys@, st.used);
                if strict && !load_clean(missing, st) {
                    r.outcome matches Err(Error::State(m)) && exists|rest: Seq<char>|
                        m@ == "strict load failed: "@ + rest
                } else {
                    r.outcome matches Ok(rep) && strings_view(rep.missing@) == missing
                        && strings_view(rep.unexpected@) == st.unexpected
                        && mismatches_view(rep.mismatched@) == st.mismatched
                        && kind_mismatches_view(rep.kind_mismatched@) == st.kind_mismatched
                }
            },
        },
{
    let mut used: Vec<String> = Vec::new();
    let mut unexpected: Vec<String> = Vec::new();
    let mut mismatched: Vec<(String, Vec<usize>, Vec<usize>)> = Vec::new();
    let mut kind_mismatched: Vec<(String, Kind, Kind)> = Vec::new();
    let mut copies: Vec<(usize, usize)> = Vec::new();
    assert(strings_view(used@) =~= Seq::<Seq<char>>::empty());
    assert(strings_view(unexpected@) =~= Seq::<Seq<char>>::empty());
    assert(mismatches_view(mismatched@) =~= Seq::<(Seq<char>, Seq<usize>, Seq<usize>)>::empty());
    assert(kind_mismatches_view(kind_mismatched@) =~= Seq::<(Seq<char>, Kind, Kind)>::empty());
    assert(copies@ =~= Seq::<(usize, usize)>::empty());
    let mut i: usize = 0;
    while i < blobs.len()
        invariant
            i <= blobs@.len(),
            load_fold(entries@, blobs@, i as nat) == Some(
                LoadState {
                    unexpected: strings_view(unexpected@),
                    mismatched: mismatches_view(mismatched@),
                    kind_mismatched: kind_mismatches_view(kind_mismatched@),
                    copies: copies@,
                    used: strings_view(used@),
                },
            ),
        decreases blobs@.len() - i,
    {
        let blob = &blobs[i];
        let k = &blob.target;
        if contains_key(&used, k) {
            proof {
                lemma_fold_fail(entries@, blobs@, (i + 1) as nat, blobs@.len());
                lemma_copies_after_failure(entries@, blobs@, i as nat, blobs@.len());
            }
            let mut msg = String::from_str("load_state_dict: rename produced duplicate key: ");
            msg.append(k.as_str());
            return LoadPlan { outcome: Err(Error::State(msg)), copies };
        }
        let ghost u0 = unexpected@;
        let ghost m0 = mismatched@;
        let ghost k0 = kind_mismatched@;
        let ghost us0 = used@;
        match find_entry_index(entries, k) {
            None => {
                unexpected.push(blob.key.clone());
                assert(strings_view(unexpected@) =~= strings_view(u0).push(blob.key@));
            },
            Some(e) => {
                used.push(k.clone());
                assert(strings_view(used@) =~= strings_view(us0).push(k@));
                let entry = &entries[e];
                if entry.kind != blob.kind {
                    kind_mismatched.push((k.clone(), entry.kind, blob.kind));
                    assert(kind_mismatches_view(kind_mismatched@) =~= kind_mismatches_view(k0).push(
                        (k@, entry.kind, blob.kind),
                    ));
                } else if !same_dims(entry.shape.as_slice(), blob.shape.as_slice()) {
                    mismatched.push(
                        (
                            k.clone(),
                            vstd::slice::slice_to_vec(entry.shape.as_slice()),
                            vstd::slice::slice_to_vec(blob.shape.as_slice()),
                        ),
                    );
                    assert(mismatches_view(mismatched@) =~= mismatches_view(m0).push(
                        (k@, entry.shape@, blob.shape@),
                    ));
                } else {
                    copies.push((i, e));
                }
            },
        }
        i += 1;
    }
    let mut missing: Vec<String> = Vec::new();
    assert(strings_view(missing@) =~= Seq::<Seq<char>>::empty());
    assert(expected_keys@.take(0) =~= Seq::<String>::empty());
    let mut m: usize = 0;
    while m < expected_keys.len()
        invariant
            m <= expected_keys@.len(),
            strings_view(missing@) == missing_keys(expected_keys@.take(m as int), strings_view(used@)),
        decreases expected_keys@.len() - m,
    {
        let ghost ms0 = missing@;
        proof {
            let t = expected_keys@.take(m + 1);
            assert(t.drop_last() =~= expected_keys@.take(m as int));
            assert(t.last() == expected_keys@[m as int]);
        }
        if !contains_key(&used, &expected_keys[m]) {
            missing.push(expected_keys[m].clone());
            assert(strings_view(missing@) =~= strings_view(ms0).push(expected_keys@[m as int]@));
        }
        m += 1;
    }
    assert(expected_keys@.take(expected_keys@.len() as int) =~= expected_keys@);
    let report = LoadReport { missing, unexpected, mismatched, kind_mismatched };
    if strict && (report.missing.len() != 0 || report.unexpected.len() != 0
        || report.mismatched.len() != 0 || report.kind_mismatched.len() != 0) {
        let mut msg = String::from_str("strict load failed: ");
        let described = describe_report(&report);
        msg.append(described.as_str());
        assert(msg@ == "strict load failed: "@ + described@);
        return LoadPlan { outcome: Err(Error::State(msg)), copies };
    }
    LoadPlan { outcome: Ok(report), copies }
}

proof fn lemma_copies_after_failure(entries: Seq<EntryInfo>, blobs: Seq<BlobInfo>, i: nat, n: nat)
    requires
        load_fold(entries, blobs, i) is Some,
        load_fold(entries, blobs, i + 1) is None,
        i < n,
    ensures
        copies_before_failure(entries, blobs, n) == load_fold(entries, blobs, i).unwrap().copies,
        failing_blob(entries, blobs, n) == i,
    decreases n - i,
{
    assert(copies_before_failure(entries, blobs, i) == load_fold(entries, blobs, i).unwrap().copies);
    if n > i + 1 {
        lemma_fold_fail(entries, blobs, i + 1, n);
        lemma_copies_after_failure(entries, blobs, i, (n - 1) as nat);
    }
    assert(copies_before_failure(entries, blobs, n) == copies_before_failure(
        entries,
        blobs,
        (n - 1) as nat,
    ));
    assert(failing_blob(entries, blobs, n) == failing_blob(entries, blobs, (n - 1) as nat) || n
        == i + 1);
}

proof fn lemma_fold_fail(entries: Seq<EntryInfo>, blobs: Seq<BlobInfo>, i: nat, n: nat)
    requires
        load_fold(entries, blobs, i) is None,
        i <= n,
    ensures
        load_fold(entries, blobs, n) is None,
    decreases n - i,
{
    if i < n {
        lemma_fold_fail(entries, blobs, i, (n - 1) as nat);
    }
}


/// No two entries share a key.
pub open spec fn entry_keys_distinct(entries: Seq<EntryInfo>) -> bool {
    forall|i: int, j: int| 0 <= i < j < entries.len() ==> entries[i].key@ != entries[j].key@
}

/// No two tensors load into the same key.
pub open spec fn blob_targets_distinct(blobs: Seq<BlobInfo>) -> bool {
    forall|i: int, j: int| 0 <= i < j < blobs.len() ==> blobs[i].target@ != blobs[j].target@
}

/// Entry `e` has the target key, kind and shape of tensor `b`.
pub open spec fn fits(e: EntryInfo, b: BlobInfo) -> bool {
    e.key@ == b.target@ && e.kind == b.kind && e.shape@ == b.shape@
}

/// The tensors and the entries correspond one to one: every tensor has an
/// entry of its target key, kind and shape, and every entry receives a tensor.
pub open spec fn dict_matches_store(entries: Seq<EntryInfo>, blobs: Seq<BlobInfo>) -> bool {
    &&& forall|i: int|
        #![trigger blobs[i]]
        0 <= i < blobs.len() ==> exists|e: int|
            0 <= e < entries.len() && #[trigger] fits(entries[e], blobs[i])
    &&& forall|e: int|
        #![trigger entries[e]]
        0 <= e < entries.len() ==> exists|i: int|
            0 <= i < blobs.len() && #[trigger] fits(entries[e], blobs[i])
}

proof fn lemma_find_entry_from(entries: Seq<EntryInfo>, key: Seq<char>, i: int, e: int)
    requires
        0 <= i <= e < entries.len(),
        entries[e].key@ == key,
        entry_keys_distinct(entries),
    ensures
        find_entry_from(entries, key, i) == Some(e),
    decreases e - i,
{
    if i < e {
        assert(entries[i].key@ != entries[e].key@);
        lemma_find_entry_from(entries, key, i + 1, e);
    }
}

proof fn lemma_missing_empty(expected: Seq<String>, used: Seq<Seq<char>>)
    requires
        forall|k: int| 0 <= k < expected.len() ==> used.contains(#[trigger] expected[k]@),
    ensures
        missing_keys(expected, used) == Seq::<Seq<char>>::empty(),
    decreases expected.len(),
{
    if expected.len() > 0 {
        let p = expected.drop_last();
        assert forall|k: int| 0 <= k < p.len() implies used.contains(#[trigger] p[k]@) by {
            assert(p[k] == expected[k]);
        }
        lemma_missing_empty(p, used);
        assert(used.contains(expected[expected.len() - 1]@));
    }
}

/// The targets of the first `i` tensors.
pub open spec fn targets(blobs: Seq<BlobInfo>, i: int) -> Seq<Seq<char>> {
    Seq::new(i as nat, |t: int| blobs[t].target@)
}

proof fn lemma_matching_prefix(entries: Seq<EntryInfo>, blobs: Seq<BlobInfo>, i: nat)
    requires
        i <= blobs.len() <= usize::MAX,
        entries.len() <= usize::MAX,
        entry_keys_distinct(entries),
        blob_targets_distinct(blobs),
        dict_matches_store(entries, blobs),
    ensures
        load_fold(entries, blobs, i) matches Some(st) && st.unexpected.len() == 0
            && st.mismatched.len() == 0 && st.kind_mismatched.len() == 0 && st.used == targets(
            blobs,
            i as int,
        ) && st.copies.len() == i && forall|t: int|
            0 <= t < i ==> (#[trigger] st.copies[t]).0 == t && 0 <= st.copies[t].1 < entries.len()
                && fits(entries[st.copies[t].1 as int], blobs[t]),
    decreases i,
{
    if i == 0 {
        assert(targets(blobs, 0) =~= Seq::<Seq<char>>::empty());
    } else {
        lemma_matching_prefix(entries, blobs, (i - 1) as nat);
        let st = load_fold(entries, blobs, (i - 1) as nat).unwrap();
        let b = blobs[i - 1];
        let k = b.target@;
        assert(!st.used.contains(k)) by {
            if st.used.contains(k) {
                let t = choose|t: int| 0 <= t < st.used.len() && st.used[t] == k;
                assert(blobs[t].target@ == blobs[i - 1].target@);
            }
        }
        let e = choose|e: int| 0 <= e < entries.len() && #[trigger] fits(entries[e], blobs[i - 1]);
        lemma_find_entry_from(entries, k, 0, e);
        let st2 = load_fold(entries, blobs, i).unwrap();
        assert(st2.used =~= targets(blobs, i as int));
        assert forall|t: int| 0 <= t < i implies (#[trigger] st2.copies[t]).0 == t && 0
            <= st2.copies[t].1 < entries.len() && fits(entries[st2.copies[t].1 as int], blobs[t]) by {
            if t < i - 1 {
                assert(st2.copies[t] == st.copies[t]);
            }
        }
    }
}

/// Loading a state dictionary into a store whose entries correspond one to
/// one to its tensors (same keys, kinds and shapes) reports nothing, and
/// copies every tensor, in order, into the entry of its key.
pub proof fn lemma_matching_load_is_clean(
    entries: Seq<EntryInfo>,
    blobs: Seq<BlobInfo>,
    expected: Seq<String>,
)
    requires
        blobs.len() <= usize::MAX,
        entries.len() <= usize::MAX,
        entry_keys_distinct(entries),
        blob_targets_distinct(blobs),
        dict_matches_store(entries, blobs),
        forall|k: int|
            #![trigger expected[k]]
            0 <= k < expected.len() ==> exists|e: int|
                0 <= e < entries.len() && (#[trigger] entries[e]).key@ == expected[k]@,
    ensures
        load_fold(entries, blobs, blobs.len()) matches Some(st) && load_clean(
            missing_keys(expected, st.used),
            st,
        ) && st.copies.len() == blobs.len() && forall|t: int|
            0 <= t < blobs.len() ==> (#[trigger] st.copies[t]).0 == t && fits(
                entries[st.copies[t].1 as int],
                blobs[t],
            ),
{
    lemma_matching_prefix(entries, blobs, blobs.len());
    let st = load_fold(entries, blobs, blobs.len()).unwrap();
    assert forall|k: int| 0 <= k < expected.len() implies st.used.contains(#[trigger] expected[k]@) by {
        let e = choose|e: int| 0 <= e < entries.len() && entries[e].key@ == expected[k]@;
        let t = choose|t: int| 0 <= t < blobs.len() && #[trigger] fits(entries[e], blobs[t]);
        assert(st.used[t] == blobs[t].target@);
    }
    lemma_missing_empty(expected, st.used);
}

proof fn lemma_find_entry_first(entries: Seq<EntryInfo>, key: Seq<char>, i: int)
    requires
        0 <= i,
    ensures
        match find_entry_from(entries, key, i) {
            Some(e) => i <= e < entries.len() && entries[e].key@ == key && forall|e2: int|
                i <= e2 < e ==> entries[e2].key@ != key,
            None => forall|e2: int| i <= e2 < entries.len() ==> entries[e2].key@ != key,
        },
    decreases entries.len() - i,
{
    if i < entries.len() && entries[i].key@ != key {
        lemma_find_entry_first(entries, key, i + 1);
    }
}

/// Tensor `bi` loads into entry `e`: the entry is the first one whose key is
/// the tensor's target key, and it has the tensor's kind and shape.
pub open spec fn loads_into(entries: Seq<EntryInfo>, blobs: Seq<BlobInfo>, bi: int, e: int) -> bool {
    &&& 0 <= bi < blobs.len()
    &&& 0 <= e < entries.len()
    &&& entries[e].key@ == blobs[bi].target@
    &&& forall|e2: int| 0 <= e2 < e ==> entries[e2].key@ != blobs[bi].target@
    &&& entries[e].kind == blobs[bi].kind
    &&& entries[e].shape@ == blobs[bi].shape@
}

proof fn lemma_fold_copies(entries: Seq<EntryInfo>, blobs: Seq<BlobInfo>, i: nat)
    requires
        i <= blobs.len() <= usize::MAX,
        entries.len() <= usize::MAX,
        load_fold(entries, blobs, i) is Some,
    ensures
        forall|c: (usize, usize)|
            #[trigger] load_fold(entries, blobs, i).unwrap().copies.contains(c) <==> (c.0 < i
                && loads_into(entries, blobs, c.0 as int, c.1 as int)),
    decreases i,
{
    if i > 0 {
        let prev = load_fold(entries, blobs, (i - 1) as nat);
        assert(prev is Some);
        lemma_fold_copies(entries, blobs, (i - 1) as nat);
        let st = prev.unwrap();
        let bi = i - 1;
        let blob = blobs[bi];
        let k = blob.target@;
        lemma_find_entry_first(entries, k, 0);
        let st2 = load_fold(entries, blobs, i).unwrap();
        assert forall|c: (usize, usize)|
            #[trigger] st2.copies.contains(c) <==> (c.0 < i && loads_into(
                entries,
                blobs,
                c.0 as int,
                c.1 as int,
            )) by {
            match find_entry(entries, k) {
                None => {
                    assert(st2.copies == st.copies);
                    if c.0 == bi && loads_into(entries, blobs, c.0 as int, c.1 as int) {
                        assert(entries[c.1 as int].key@ == k);
                    }
                },
                Some(e) => {
                    if entries[e].kind != blob.kind || entries[e].shape@ != blob.shape@ {
                        assert(st2.copies == st.copies);
                        if c.0 == bi && loads_into(entries, blobs, c.0 as int, c.1 as int) {
                            if (c.1 as int) < e {
                            } else if (c.1 as int) > e {
                                assert(entries[e].key@ == k);
                            }
                        }
                    } else {
                        let pair = (bi as usize, e as usize);
                        assert(st2.copies == st.copies.push(pair));
                        if st2.copies.contains(c) && !st.copies.contains(c) {
                            let t = choose|t: int| 0 <= t < st2.copies.len() && st2.copies[t] == c;
                            assert(t == st.copies.len());
                            assert(c == pair);
                        }
                        if st.copies.contains(c) {
                            let t = choose|t: int| 0 <= t < st.copies.len() && st.copies[t] == c;
                            assert(st2.copies[t] == c);
                        }
                        if c.0 == bi && loads_into(entries, blobs, c.0 as int, c.1 as int) {
                            if (c.1 as int) < e {
                            } else if (c.1 as int) > e {
                                assert(entries[e].key@ == k);
                            }
                            assert(c == pair);
                            assert(st2.copies[st.copies.len() as int] == pair);
                        }
                    }
                },
            }
        }
    }
}

proof fn lemma_failure_point(entries: Seq<EntryInfo>, blobs: Seq<BlobInfo>, n: nat) -> (i: nat)
    requires
        load_fold(entries, blobs, n) is None,
    ensures
        i < n,
        load_fold(entries, blobs, i) is Some,
        load_fold(entries, blobs, i + 1) is None,
    decreases n,
{
    if load_fold(entries, blobs, (n - 1) as nat) is None {
        lemma_failure_point(entries, blobs, (n - 1) as nat)
    } else {
        (n - 1) as nat
    }
}

/// The copies of a load are exactly the tensors that load into an entry:
/// tensor `bi` is copied into entry `e` if and only if `e` is the first
/// entry whose key is the tensor's target key and it has the tensor's kind
/// and shape, whatever the other tensors are, and `bi` comes before the
/// tensor whose target key repeats an earlier one (when there is such a tensor).
pub proof fn lemma_copies_are_matching_tensors(entries: Seq<EntryInfo>, blobs: Seq<BlobInfo>)
    requires
        blobs.len() <= usize::MAX,
        entries.len() <= usize::MAX,
    ensures
        forall|c: (usize, usize)|
            #[trigger] copies_before_failure(entries, blobs, blobs.len()).contains(c) <==> (c.0
                < (if load_fold(entries, blobs, blobs.len()) is Some {
                blobs.len() as int
            } else {
                failing_blob(entries, blobs, blobs.len())
            }) && loads_into(entries, blobs, c.0 as int, c.1 as int)),
{
    let n = blobs.len();
    if load_fold(entries, blobs, n) is Some {
        lemma_fold_copies(entries, blobs, n);
    } else {
        let i = lemma_failure_point(entries, blobs, n);
        lemma_copies_after_failure(entries, blobs, i, n);
        lemma_fold_copies(entries, blobs, i);
    }
}

/// `e` is the first entry whose key is `key`.
pub open spec fn first_entry_with(entries: Seq<EntryInfo>, key: Seq<char>, e: int) -> bool {
    &&& 0 <= e < entries.len()
    &&& entries[e].key@ == key
    &&& forall|e2: int| 0 <= e2 < e ==> entries[e2].key@ != key
}

/// Some entry has the key `key`.
pub open spec fn has_entry(entries: Seq<EntryInfo>, key: Seq<char>) -> bool {
    exists|e: int| 0 <= e < entries.len() && entries[e].key@ == key
}

/// The first entry whose key is `key`.
pub open spec fn first_entry(entries: Seq<EntryInfo>, key: Seq<char>) -> int {
    choose|e: int| first_entry_with(entries, key, e)
}

proof fn lemma_find_entry_is_first(entries: Seq<EntryInfo>, key: Seq<char>)
    ensures
        find_entry(entries, key) is Some <==> has_entry(entries, key),
        find_entry(entries, key) matches Some(e) ==> e == first_entry(entries, key)
            && first_entry_with(entries, key, e),
{
    lemma_find_entry_first(entries, key, 0);
    match find_entry(entries, key) {
        Some(e) => {
            assert(first_entry_with(entries, key, e));
            let c = first_entry(entries, key);
            assert(first_entry_with(entries, key, c));
            if c < e {
                assert(entries[c].key@ != key);
            } else if c > e {
                assert(entries[e].key@ != key);
            }
        },
        None => {},
    }
}

proof fn lemma_filter_step<B>(i: nat, pred: spec_fn(int) -> bool, f: spec_fn(int) -> B)
    requires
        i > 0,
    ensures
        Seq::new(i, |t: int| t).filter(pred).map_values(f) == if pred(i - 1) {
            Seq::new((i - 1) as nat, |t: int| t).filter(pred).map_values(f).push(f(i - 1))
        } else {
            Seq::new((i - 1) as nat, |t: int| t).filter(pred).map_values(f)
        },
{
    reveal(Seq::filter);
    let idx = Seq::new(i, |t: int| t);
    let idx1 = Seq::new((i - 1) as nat, |t: int| t);
    assert(idx.drop_last() =~= idx1);
    assert(idx.last() == i - 1);
    if pred(i - 1) {
        assert(idx.filter(pred) == idx1.filter(pred).push(i - 1));
        assert(idx1.filter(pred).push(i - 1).map_values(f) =~= idx1.filter(pred).map_values(f).push(
            f(i - 1),
        ));
    } else {
        assert(idx.filter(pred) == idx1.filter(pred));
    }
}

proof fn lemma_filter_empty<B>(pred: spec_fn(int) -> bool, f: spec_fn(int) -> B)
    ensures
        Seq::new(0, |t: int| t).filter(pred).map_values(f) == Seq::<B>::empty(),
{
    reveal(Seq::filter);
    assert(Seq::new(0, |t: int| t).filter(pred).map_values(f) =~= Seq::<B>::empty());
}

proof fn lemma_filter_contains<B>(i: nat, pred: spec_fn(int) -> bool, f: spec_fn(int) -> B, x: B)
    ensures
        Seq::new(i, |t: int| t).filter(pred).map_values(f).contains(x) <==> exists|t: int|
            0 <= t < i && #[trigger] pred(t) && f(t) == x,
    decreases i,
{
    if i == 0 {
        lemma_filter_empty(pred, f);
    } else {
        lemma_filter_step(i, pred, f);
        lemma_filter_contains((i - 1) as nat, pred, f, x);
        let prev = Seq::new((i - 1) as nat, |t: int| t).filter(pred).map_values(f);
        if pred(i - 1) {
            let cur = prev.push(f(i - 1));
            if cur.contains(x) {
                let k = choose|k: int| 0 <= k < cur.len() && cur[k] == x;
                if k < prev.len() {
                    assert(prev[k] == x);
                }
            }
            if exists|t: int| 0 <= t < i && #[trigger] pred(t) && f(t) == x {
                let t = choose|t: int| 0 <= t < i && #[trigger] pred(t) && f(t) == x;
                if t < i - 1 {
                    let k = choose|k: int| 0 <= k < prev.len() && prev[k] == x;
                    assert(cur[k] == x);
                } else {
                    assert(cur[prev.len() as int] == x);
                }
            }
        }
    }
}

proof fn lemma_missing_filter(expected: Seq<String>, used: Seq<Seq<char>>)
    ensures
        missing_keys(expected, used) == expected.filter(|k: String| !used.contains(k@)).map_values(
            |k: String| k@,
        ),
    decreases expected.len(),
{
    reveal(Seq::filter);
    let pred = |k: String| !used.contains(k@);
    if expected.len() == 0 {
        assert(expected.filter(pred).map_values(|k: String| k@) =~= Seq::<Seq<char>>::empty());
    } else {
        lemma_missing_filter(expected.drop_last(), used);
        let prev = expected.drop_last().filter(pred);
        if pred(expected.last()) {
            assert(prev.push(expected.last()).map_values(|k: String| k@) =~= prev.map_values(
                |k: String| k@,
            ).push(expected.last()@));
        }
    }
}

proof fn lemma_fold_report(entries: Seq<EntryInfo>, blobs: Seq<BlobInfo>, i: nat)
    requires
        i <= blobs.len(),
        load_fold(entries, blobs, i) is Some,
    ensures
        ({
            let st = load_fold(entries, blobs, i).unwrap();
            let found = |t: int| has_entry(entries, blobs[t].target@);
            let fe = |t: int| first_entry(entries, blobs[t].target@);
            &&& st.unexpected == Seq::new(i, |t: int| t).filter(|t: int| !found(t)).map_values(
                |t: int| blobs[t].key@,
            )
            &&& st.kind_mismatched == Seq::new(i, |t: int| t).filter(
                |t: int| found(t) && entries[fe(t)].kind != blobs[t].kind,
            ).map_values(|t: int| (blobs[t].target@, entries[fe(t)].kind, blobs[t].kind))
            &&& st.mismatched == Seq::new(i, |t: int| t).filter(
                |t: int|
                    found(t) && entries[fe(t)].kind == blobs[t].kind && entries[fe(t)].shape@
                        != blobs[t].shape@,
            ).map_values(|t: int| (blobs[t].target@, entries[fe(t)].shape@, blobs[t].shape@))
            &&& st.used == Seq::new(i, |t: int| t).filter(found).map_values(|t: int| blobs[t].target@)
        }),
    decreases i,
{
    let found = |t: int| has_entry(entries, blobs[t].target@);
    let fe = |t: int| first_entry(entries, blobs[t].target@);
    let p_un = |t: int| !found(t);
    let f_un = |t: int| blobs[t].key@;
    let p_km = |t: int| found(t) && entries[fe(t)].kind != blobs[t].kind;
    let f_km = |t: int| (blobs[t].target@, entries[fe(t)].kind, blobs[t].kind);
    let p_mm = |t: int|
        found(t) && entries[fe(t)].kind == blobs[t].kind && entries[fe(t)].shape@ != blobs[t].shape@;
    let f_mm = |t: int| (blobs[t].target@, entries[fe(t)].shape@, blobs[t].shape@);
    let f_used = |t: int| blobs[t].target@;
    if i == 0 {
        lemma_filter_empty(p_un, f_un);
        lemma_filter_empty(p_km, f_km);
        lemma_filter_empty(p_mm, f_mm);
        lemma_filter_empty(found, f_used);
    } else {
        let prev = load_fold(entries, blobs, (i - 1) as nat);
        assert(prev is Some);
        lemma_fold_report(entries, blobs, (i - 1) as nat);
        lemma_filter_step(i, p_un, f_un);
        lemma_filter_step(i, p_km, f_km);
        lemma_filter_step(i, p_mm, f_mm);
        lemma_filter_step(i, found, f_used);
        let t = i - 1;
        lemma_find_entry_is_first(entries, blobs[t].target@);
    }
}

/// What a load that meets no repeated target key reports: the keys of the
/// tensors whose target key found no entry; for the others, compared with the
/// first entry of that key, those of another kind, and those of the same
/// kind and another shape, each in the order of the tensors; and the
/// expected keys that no tensor with an entry targets, in their order.
pub proof fn lemma_load_report(entries: Seq<EntryInfo>, blobs: Seq<BlobInfo>, expected: Seq<String>)
    requires
        load_fold(entries, blobs, blobs.len()) is Some,
    ensures
        ({
            let n = blobs.len();
            let st = load_fold(entries, blobs, n).unwrap();
            let found = |t: int| has_entry(entries, blobs[t].target@);
            let fe = |t: int| first_entry(entries, blobs[t].target@);
            &&& st.unexpected == Seq::new(n, |t: int| t).filter(|t: int| !found(t)).map_values(
                |t: int| blobs[t].key@,
            )
            &&& st.kind_mismatched == Seq::new(n, |t: int| t).filter(
                |t: int| found(t) && entries[fe(t)].kind != blobs[t].kind,
            ).map_values(|t: int| (blobs[t].target@, entries[fe(t)].kind, blobs[t].kind))
            &&& st.mismatched == Seq::new(n, |t: int| t).filter(
                |t: int|
                    found(t) && entries[fe(t)].kind == blobs[t].kind && entries[fe(t)].shape@
                        != blobs[t].shape@,
            ).map_values(|t: int| (blobs[t].target@, entries[fe(t)].shape@, blobs[t].shape@))
            &&& missing_keys(expected, st.used) == expected.filter(
                |k: String| !(exists|t: int| 0 <= t < n && found(t) && blobs[t].target@ == k@),
            ).map_values(|k: String| k@)
        }),
{
    let n = blobs.len();
    lemma_fold_report(entries, blobs, n);
    let st = load_fold(entries, blobs, n).unwrap();
    let found = |t: int| has_entry(entries, blobs[t].target@);
    let f_used = |t: int| blobs[t].target@;
    lemma_missing_filter(expected, st.used);
    assert forall|k: String| #[trigger] st.used.contains(k@) <==> (exists|t: int|
        0 <= t < n && found(t) && blobs[t].target@ == k@) by {
        lemma_filter_contains(n, found, f_used, k@);
    }
    let p1 = |k: String| !st.used.contains(k@);
    let p2 = |k: String| !(exists|t: int| 0 <= t < n && found(t) && blobs[t].target@ == k@);
    assert(p1 =~= p2);
}

} // verus!
