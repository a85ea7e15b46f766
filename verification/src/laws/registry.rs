//! What the registry finds, keeps and forgets, said of its rows.
use crate::paths;
use crate::seqs;
use crate::store;
use crate::text;
use vstd::prelude::*;

verus! {

/// A machine is found by its repository and its handle together: the first
/// row that has both.
pub proof fn machines_are_found(rows: Seq<store::Machine>, root: Seq<char>, handle: Seq<char>)
    ensures
        match store::machine_in(rows, root, handle) {
            Some(m) => exists|i: int|
                {
                    &&& 0 <= i < rows.len()
                    &&& #[trigger] rows[i] == m
                    &&& m.project_root@ == root
                    &&& m.handle@ == handle
                    &&& forall|j: int|
                        0 <= j < i ==> (#[trigger] rows[j]).project_root@ != root
                            || rows[j].handle@ != handle
                },
            None => forall|j: int|
                0 <= j < rows.len() ==> (#[trigger] rows[j]).project_root@ != root
                    || rows[j].handle@ != handle,
        },
    decreases rows.len(),
{
    if rows.len() > 0 {
        let t = rows.skip(1);
        machines_are_found(t, root, handle);
        if rows[0].project_root@ == root && rows[0].handle@ == handle {
            assert(store::machine_in(rows, root, handle) == Some(rows[0]));
        } else {
            assert(store::machine_in(rows, root, handle) == store::machine_in(t, root, handle));
            assert forall|j: int| 1 <= j < rows.len() implies #[trigger] rows[j] == t[j - 1] by {}
            match store::machine_in(t, root, handle) {
                Some(m) => {
                    let i = choose|i: int|
                        {
                            &&& 0 <= i < t.len()
                            &&& #[trigger] t[i] == m
                            &&& forall|j: int|
                                0 <= j < i ==> (#[trigger] t[j]).project_root@ != root
                                    || t[j].handle@ != handle
                        };
                    assert(rows[i + 1] == m);
                },
                None => {},
            }
        }
    }
}

/// A snapshot is found by its id: the first row that has it.
pub proof fn snapshots_are_found(rows: Seq<store::Snapshot>, id: Seq<char>)
    ensures
        match store::snapshot_with_id(rows, id) {
            Some(s) => exists|i: int|
                {
                    &&& 0 <= i < rows.len()
                    &&& #[trigger] rows[i] == s
                    &&& s.snapshot_id@ == id
                    &&& forall|j: int| 0 <= j < i ==> (#[trigger] rows[j]).snapshot_id@ != id
                },
            None => forall|j: int| 0 <= j < rows.len() ==> (#[trigger] rows[j]).snapshot_id@ != id,
        },
    decreases rows.len(),
{
    if rows.len() > 0 {
        let t = rows.skip(1);
        snapshots_are_found(t, id);
        assert forall|j: int| 1 <= j < rows.len() implies #[trigger] rows[j] == t[j - 1] by {}
        if rows[0].snapshot_id@ == id {
            assert(store::snapshot_with_id(rows, id) == Some(rows[0]));
        } else {
            assert(store::snapshot_with_id(rows, id) == store::snapshot_with_id(t, id));
            match store::snapshot_with_id(t, id) {
                Some(s) => {
                    let i = choose|i: int|
                        {
                            &&& 0 <= i < t.len()
                            &&& #[trigger] t[i] == s
                            &&& forall|j: int|
                                0 <= j < i ==> (#[trigger] t[j]).snapshot_id@ != id
                        };
                    assert(rows[i + 1] == s);
                },
                None => {},
            }
        }
    }
}

/// What is found for a commit, or for none, was saved for this machine of
/// this repository and this commit, at no earlier time than anything else
/// that was, and at a later time than any such row behind it.
pub proof fn latest_is_found(
    rows: Seq<store::Snapshot>,
    root: Seq<char>,
    handle: Seq<char>,
    sha: Option<Seq<char>>,
)
    ensures
        match store::latest_tagged(rows, root, handle, sha) {
            Some(s) => exists|i: int|
                {
                    &&& 0 <= i < rows.len()
                    &&& #[trigger] rows[i] == s
                    &&& s.project_root@ == root
                    &&& s.handle@ == handle
                    &&& text::opt_text(s.head_sha) == sha
                    &&& forall|j: int|
                        0 <= j < rows.len() && (#[trigger] rows[j]).project_root@ == root
                            && rows[j].handle@ == handle && text::opt_text(rows[j].head_sha) == sha
                            ==> rows[j].saved_at <= s.saved_at && (j > i ==> rows[j].saved_at
                            < s.saved_at)
                },
            None => forall|j: int|
                0 <= j < rows.len() ==> !((#[trigger] rows[j]).project_root@ == root
                    && rows[j].handle@ == handle && text::opt_text(rows[j].head_sha) == sha),
        },
    decreases rows.len(),
{
    if rows.len() > 0 {
        let t = rows.drop_last();
        let last = rows[rows.len() - 1];
        latest_is_found(t, root, handle, sha);
        assert forall|j: int| 0 <= j < t.len() implies #[trigger] rows[j] == t[j] by {}
        let mine = last.project_root@ == root && last.handle@ == handle && text::opt_text(
            last.head_sha,
        ) == sha;
        match store::latest_tagged(t, root, handle, sha) {
            Some(s) => {
                let i = choose|i: int|
                    {
                        &&& 0 <= i < t.len()
                        &&& #[trigger] t[i] == s
                        &&& forall|j: int|
                            0 <= j < t.len() && (#[trigger] t[j]).project_root@ == root
                                && t[j].handle@ == handle && text::opt_text(t[j].head_sha) == sha
                                ==> t[j].saved_at <= s.saved_at && (j > i ==> t[j].saved_at
                                < s.saved_at)
                    };
                assert(rows[i] == s);
                if mine && s.saved_at <= last.saved_at {
                    assert(store::latest_tagged(rows, root, handle, sha) == Some(last));
                    assert(rows[rows.len() - 1] == last);
                } else {
                    assert(store::latest_tagged(rows, root, handle, sha) == Some(s));
                }
            },
            None => {
                if mine {
                    assert(store::latest_tagged(rows, root, handle, sha) == Some(last));
                    assert(rows[rows.len() - 1] == last);
                } else {
                    assert(store::latest_tagged(rows, root, handle, sha) is None);
                }
            },
        }
    }
}

/// The snapshots of a machine are those with its repository and its handle,
/// in the order in which they were saved, and every other row stays when
/// they are removed.
pub proof fn snapshots_belong(
    rows: Seq<store::Snapshot>,
    root: Seq<char>,
    handle: Seq<char>,
    s: store::Snapshot,
)
    ensures
        store::by_save(store::snapshots_of(rows, root, handle)).contains(s) <==> rows.contains(s)
            && s.project_root@ == root && s.handle@ == handle,
        store::snapshots_not_of(rows, root, handle).contains(s) <==> rows.contains(s) && (
        s.project_root@ != root || s.handle@ != handle),
        forall|i: int, j: int|
            0 <= i <= j < store::by_save(store::snapshots_of(rows, root, handle)).len() ==> (
            #[trigger] store::by_save(store::snapshots_of(rows, root, handle))[i]).saved_at <= (
            #[trigger] store::by_save(store::snapshots_of(rows, root, handle))[j]).saved_at,
{
    let own = store::snapshots_of(rows, root, handle);
    let sorted = store::by_save(own);
    store::snapshots_listed_in_order(rows, root, handle);
    seqs::lemma_selected(rows, |x: store::Snapshot| !x.is_of(root, handle));
    sorted.to_multiset_ensures();
    own.to_multiset_ensures();
    assert(sorted.contains(s) <==> sorted.to_multiset().count(s) > 0);
    assert(own.contains(s) <==> own.to_multiset().count(s) > 0);
}

/// Forgetting a machine removes the rows with its repository and its handle,
/// and no other.
pub proof fn only_one_machine_is_forgotten(
    rows: Seq<store::Machine>,
    root: Seq<char>,
    handle: Seq<char>,
    m: store::Machine,
)
    ensures
        store::machines_without(rows, root, handle).contains(m) <==> rows.contains(m) && (
        m.project_root@ != root || m.handle@ != handle),
{
    seqs::lemma_selected(rows, |x: store::Machine| !x.is_at(root, handle));
}

/// Content is referred to as long as a row has its hash.
pub proof fn content_is_referenced(rows: Seq<store::Snapshot>, hash: Seq<char>)
    ensures
        store::content_in(rows, hash) <==> exists|i: int|
            0 <= i < rows.len() && (#[trigger] rows[i]).content_hash@ == hash,
{
}

/// A snapshot that names its repository keeps it. One that names none gets
/// that of the first machine with its handle, where there is one.
pub proof fn old_snapshots_find_their_repository(rows: Seq<store::Machine>, s: store::Snapshot, i: int)
    requires
        0 <= i < rows.len(),
        rows[i].handle@ == s.handle@,
        forall|j: int| 0 <= j < i ==> (#[trigger] rows[j]).handle@ != s.handle@,
    ensures
        store::settled_project(rows, s) == if s.project_root@.len() > 0 {
            s.project_root@
        } else {
            rows[i].project_root@
        },
    decreases i,
{
    if i > 0 {
        let t = rows.skip(1);
        assert(rows[0].handle@ != s.handle@);
        assert(t[i - 1] == rows[i]);
        assert forall|j: int| 0 <= j < i - 1 implies (#[trigger] t[j]).handle@ != s.handle@ by {
            assert(rows[j + 1] == t[j]);
        }
        old_snapshots_find_their_repository(t, s, i - 1);
    }
}

/// A snapshot of a handle that no machine has is left as it is.
pub proof fn old_snapshots_without_a_machine(rows: Seq<store::Machine>, s: store::Snapshot)
    requires
        forall|j: int| 0 <= j < rows.len() ==> (#[trigger] rows[j]).handle@ != s.handle@,
    ensures
        store::settled_project(rows, s) == s.project_root@,
    decreases rows.len(),
{
    if rows.len() > 0 {
        let t = rows.skip(1);
        assert(rows[0].handle@ != s.handle@);
        assert forall|j: int| 0 <= j < t.len() implies (#[trigger] t[j]).handle@ != s.handle@ by {
            assert(rows[j + 1] == t[j]);
        }
        old_snapshots_without_a_machine(t, s);
    }
}

/// The table of machines is keyed by repository where a column of that name
/// is part of the primary key.
pub proof fn keyed_by_repository(columns: Seq<store::Column>)
    ensures
        store::scoped(columns) <==> exists|i: int|
            0 <= i < columns.len() && (#[trigger] columns[i]).name@ == "project_root"@
                && columns[i].key_place >= 1,
{
    if store::scoped(columns) {
        let i = choose|i: int|
            0 <= i < columns.len() && (#[trigger] columns[i]).key_place > 0 && columns[i].name@
                == "project_root"@;
        assert(columns[i].key_place >= 1);
    }
}

/// The id of new content starts with the first eight digits of its hash, and
/// no row has it yet.
pub proof fn ids_name_content(
    rows: Seq<store::Snapshot>,
    digest: Seq<u8>,
    retry_at: i64,
    id: Seq<char>,
)
    requires
        digest.len() >= 4,
        store::is_fresh_id(rows, text::hex_of(digest), retry_at, id),
    ensures
        id.len() >= 10,
        id[0] == 's',
        id[1] == '_',
        id.subrange(2, 10) == text::hex_of(digest).take(8),
        forall|j: int| 0 <= j < rows.len() ==> (#[trigger] rows[j]).snapshot_id@ != id,
        (forall|j: int| 0 <= j < rows.len() ==> (#[trigger] rows[j]).snapshot_id@ != id.take(10))
            ==> id.len() == 10,
{
    reveal_strlit("s_");
    reveal_strlit("_");
    let hash = text::hex_of(digest);
    store::digests_shorten(digest);
    text::hex_is_ascii(digest);
    let k = choose|k: nat|
        store::first_free(rows, hash, retry_at, k) && id == #[trigger] store::candidate(
            hash,
            retry_at,
            k,
        );
    let short = store::short_id(hash);
    assert(short.len() == 10);
    assert(short =~= store::candidate(hash, retry_at, 0));
    assert(id.take(10) =~= short);
    assert(id.subrange(2, 10) =~= hash.take(8));
    snapshots_are_found(rows, id);
    if k > 0 {
        assert(store::snapshot_with_id(rows, store::candidate(hash, retry_at, 0)) is Some);
        snapshots_are_found(rows, short);
    }
}

/// A machine is recorded exactly where no row has its repository and its
/// handle; it is then found, and all other machines as before. Otherwise
/// nothing changes.
pub proof fn machines_are_recorded_once(
    before: store::Registry,
    m: store::Machine,
    after: store::Registry,
    r: Result<(), store::StoreError>,
    root: Seq<char>,
    handle: Seq<char>,
)
    requires
        before.takes_machine(m, after, r),
    ensures
        r is Err <==> exists|i: int|
            0 <= i < before.machines@.len() && (#[trigger] before.machines@[i]).project_root@
                == m.project_root@ && before.machines@[i].handle@ == m.handle@,
        r is Err ==> after == before,
        after.snapshots == before.snapshots,
        r is Ok ==> store::machine_in(after.machines@, m.project_root@, m.handle@) == Some(m),
        root != m.project_root@ || handle != m.handle@ ==> store::machine_in(
            after.machines@,
            root,
            handle,
        ) == store::machine_in(before.machines@, root, handle),
{
    machines_are_found(before.machines@, m.project_root@, m.handle@);
    if r is Ok {
        lemma_pushed_machine(before.machines@, m, m.project_root@, m.handle@);
        lemma_pushed_machine(before.machines@, m, root, handle);
    }
}

proof fn lemma_pushed_machine(
    rows: Seq<store::Machine>,
    m: store::Machine,
    root: Seq<char>,
    handle: Seq<char>,
)
    ensures
        store::machine_in(rows.push(m), root, handle) == match store::machine_in(
            rows,
            root,
            handle,
        ) {
            Some(x) => Some(x),
            None => if m.project_root@ == root && m.handle@ == handle {
                Some(m)
            } else {
                None
            },
        },
    decreases rows.len(),
{
    let all = rows.push(m);
    if rows.len() == 0 {
        assert(all[0] == m);
        assert(all.skip(1) =~= Seq::<store::Machine>::empty());
        assert(store::machine_in(all.skip(1), root, handle) is None);
    } else {
        assert(all[0] == rows[0]);
        assert(all.skip(1) =~= rows.skip(1).push(m));
        lemma_pushed_machine(rows.skip(1), m, root, handle);
    }
}

/// A snapshot is recorded exactly where no row has its id, behind all the
/// rows that were there. Otherwise nothing changes.
pub proof fn snapshots_are_recorded_once(
    before: store::Registry,
    s: store::Snapshot,
    after: store::Registry,
    r: Result<(), store::StoreError>,
)
    requires
        before.takes_snapshot(s, after, r),
    ensures
        r is Err <==> exists|i: int|
            0 <= i < before.snapshots@.len() && (#[trigger] before.snapshots@[i]).snapshot_id@
                == s.snapshot_id@,
        r is Err ==> after == before,
        after.machines == before.machines,
        r is Ok ==> after.snapshots@ == before.snapshots@.push(s),
{
    snapshots_are_found(before.snapshots@, s.snapshot_id@);
}

/// Opening the registry keeps every snapshot, in its place and with all that
/// it says; only a repository that is not recorded is filled in.
pub proof fn opening_keeps_snapshots(
    machines: Seq<store::Machine>,
    before: Seq<store::Snapshot>,
    after: Seq<store::Snapshot>,
    i: int,
)
    requires
        store::settled(machines, before, after),
        0 <= i < before.len(),
    ensures
        after.len() == before.len(),
        after[i].snapshot_id@ == before[i].snapshot_id@,
        after[i].handle@ == before[i].handle@,
        after[i].head_sha == before[i].head_sha,
        after[i].snapshot_path@ == before[i].snapshot_path@,
        after[i].content_hash@ == before[i].content_hash@,
        after[i].saved_at == before[i].saved_at,
        before[i].project_root@.len() > 0 ==> after[i].project_root@ == before[i].project_root@,
{
    let row = after[i];
}

} // verus!
