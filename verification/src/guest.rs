//! The agent that runs inside the machine: what it decides and answers.
use crate::archive;
use crate::bytes;
use crate::dirs;
use crate::names;
use crate::paths;
use crate::proto;
use crate::seqs;
use crate::text;
use vstd::prelude::*;

verus! {

/// Name of the file that a synced tree carries, so that the next sync can
/// delete what disappeared on the host without touching what the guest made.
pub const MANIFEST: &'static str = ".moo-sync-manifest";

/// The names that a sync installs: those of all entries but directories,
/// without the slashes at their ends.
pub open spec fn installed_names(entries: Seq<(Seq<char>, u64, bool)>) -> Set<Seq<char>>
    decreases entries.len(),
{
    if entries.len() == 0 {
        Set::<Seq<char>>::empty()
    } else {
        let before = installed_names(entries.drop_last());
        let last = entries.last();
        if last.2 {
            before
        } else {
            before.insert(text::without_trailing(last.0, '/'))
        }
    }
}

/// How much the entries hold.
pub open spec fn total_size(entries: Seq<(Seq<char>, u64, bool)>) -> nat
    decreases entries.len(),
{
    if entries.len() == 0 {
        0
    } else {
        total_size(entries.drop_last()) + entries.last().1 as nat
    }
}

proof fn lemma_total_bound(entries: Seq<(Seq<char>, u64, bool)>)
    ensures
        total_size(entries) <= entries.len() * 0xffff_ffff_ffff_ffff,
    decreases entries.len(),
{
    if entries.len() > 0 {
        lemma_total_bound(entries.drop_last());
        let n = entries.len();
        assert((n - 1) * 0xffff_ffff_ffff_ffff + 0xffff_ffff_ffff_ffff == n * 0xffff_ffff_ffff_ffff)
            by (nonlinear_arith);
    }
}

/// The names that the last sync recorded.
pub open spec fn recorded_names(manifest: Option<Seq<char>>) -> Set<Seq<char>> {
    match manifest {
        Some(s) => text::lines_of(s).to_set(),
        None => Set::<Seq<char>>::empty(),
    }
}

/// One thing that a sync does.
pub enum TreeStep {
    /// Remove what is at the path, unless it is a directory.
    Remove(String),
    /// Remove the directories that the removals left empty.
    Prune,
    /// Unpack the archive.
    Unpack,
    /// Write the names that were installed.
    Record(String),
}

/// What a step says.
pub enum TreeStepModel {
    Remove(Seq<char>),
    Prune,
    Unpack,
    Record(Seq<char>),
}

impl View for TreeStep {
    type V = TreeStepModel;

    open spec fn view(&self) -> TreeStepModel {
        match self {
            TreeStep::Remove(p) => TreeStepModel::Remove(p@),
            TreeStep::Prune => TreeStepModel::Prune,
            TreeStep::Unpack => TreeStepModel::Unpack,
            TreeStep::Record(body) => TreeStepModel::Record(body@),
        }
    }
}

/// What the steps of a list say.
pub open spec fn tree_steps(steps: Seq<TreeStep>) -> Seq<TreeStepModel> {
    steps.map_values(|s: TreeStep| s@)
}

/// The steps of a sync, in order. What is stale goes first, so that nothing
/// of it stands in the way of what is unpacked; what was installed is
/// recorded last.
pub open spec fn sync_steps(removals: Seq<Seq<char>>, installed: names::NameSet) -> Seq<
    TreeStepModel,
> {
    removals.map_values(|p: Seq<char>| TreeStepModel::Remove(p)) + seq![
        TreeStepModel::Prune,
        TreeStepModel::Unpack,
        TreeStepModel::Record(manifest_text(installed)),
    ]
}

/// What a sync does with an archive.
pub struct TreePlan {
    /// The names that the last sync installed and this one did not, in order.
    pub stale: Vec<String>,
    /// Where those are.
    pub removals: Vec<String>,
    /// The names to record.
    pub installed: names::NameSet,
    pub bytes: u128,
    /// What to do, in order.
    pub steps: Vec<TreeStep>,
}

impl TreePlan {
    /// The plan follows from what was recorded and what the archive holds.
    pub open spec fn follows(
        self,
        target: Seq<char>,
        manifest: Option<Seq<char>>,
        entries: Seq<(Seq<char>, u64, bool)>,
    ) -> bool {
        let stale = text::texts(self.stale@);
        &&& self.installed.well_formed()
        &&& self.installed@ == installed_names(entries)
        &&& self.bytes == total_size(entries)
        &&& names::ascending(stale)
        &&& stale.to_set() == recorded_names(manifest).difference(installed_names(entries))
        &&& text::texts(self.removals@) == stale.map_values(
            |name: Seq<char>| paths::joined(target, name),
        )
        &&& tree_steps(self.steps@) == sync_steps(text::texts(self.removals@), self.installed)
    }
}

fn recorded(manifest: Option<&str>) -> (r: names::NameSet)
    ensures
        r.well_formed(),
        r@ == recorded_names(text::opt_str(manifest)),
{
    let mut set = names::NameSet::new();
    if let Some(s) = manifest {
        let lines = text::lines(s);
        let ghost all = text::lines_of(s@);
        for i in 0..lines.len()
            invariant
                text::texts(lines@) == all,
                set.well_formed(),
                set@ == all.take(i as int).to_set(),
        {
            assert(all[i as int] == lines@[i as int]@);
            let ghost t = all.take(i as int);
            assert(all.take(i as int + 1) =~= t.push(all[i as int]));
            set.insert(lines[i].as_str());
            assert(t.push(all[i as int]).to_set() =~= t.to_set().insert(all[i as int])) by {
                let more = t.push(all[i as int]);
                assert forall|x: Seq<char>| more.to_set().contains(x) == t.to_set().insert(
                    all[i as int],
                ).contains(x) by {
                    if more.contains(x) {
                        let k = choose|k: int| 0 <= k < more.len() && more[k] == x;
                        if k < t.len() {
                            assert(t[k] == x);
                        }
                    }
                    if t.contains(x) {
                        let k = choose|k: int| 0 <= k < t.len() && t[k] == x;
                        assert(more[k] == x);
                    }
                    assert(more[t.len() as int] == all[i as int]);
                }
            }
        }
        assert(all.take(all.len() as int) =~= all);
    }
    set
}

/// What to remove and to record, given the names that the last sync recorded
/// and the entries that this one installed.
pub fn plan_tree(target: &str, manifest: Option<&str>, entries: &[archive::ArchiveEntry]) -> (r: TreePlan)
    ensures
        r.follows(target@, text::opt_str(manifest), archive::entry_models(entries@)),
{
    let previous = recorded(manifest);
    let ghost all = archive::entry_models(entries@);
    let mut installed = names::NameSet::new();
    let mut bytes: u128 = 0;
    for i in 0..entries.len()
        invariant
            all == archive::entry_models(entries@),
            installed.well_formed(),
            installed@ == installed_names(all.take(i as int)),
            bytes == total_size(all.take(i as int)),
    {
        let ghost t = all.take(i as int + 1);
        assert(t.drop_last() =~= all.take(i as int));
        assert(t.last() == archive::entry_model(entries@[i as int]));
        proof {
            lemma_total_bound(t);
            assert(t.len() * 0xffff_ffff_ffff_ffff <= 0xffff_ffff_ffff_ffff
                * 0xffff_ffff_ffff_ffff) by (nonlinear_arith)
                requires
                    t.len() <= 0xffff_ffff_ffff_ffff,
            ;
        }
        bytes = bytes + entries[i].size as u128;
        if !entries[i].directory {
            let name = text::strip_trailing(entries[i].path.as_str(), '/');
            installed.insert(name.as_str());
        }
    }
    assert(all.take(all.len() as int) =~= all);
    let stale = previous.difference(&installed);
    let ghost gone = text::texts(stale@);
    proof {
        let keep = |x: Seq<char>| !installed@.contains(x);
        seqs::lemma_selected(previous.ordered(), keep);
        let order = |a: Seq<char>, b: Seq<char>| text::precedes(a, b);
        assert forall|a: int, b: int| 0 <= a < b < previous.ordered().len() implies order(
            #[trigger] previous.ordered()[a],
            #[trigger] previous.ordered()[b],
        ) by {}
        seqs::lemma_select_pairwise(previous.ordered(), keep, order);
        assert forall|a: int, b: int| 0 <= a < b < gone.len() implies text::precedes(
            #[trigger] gone[a],
            #[trigger] gone[b],
        ) by {
            assert(order(gone[a], gone[b]));
        }
        assert forall|x: Seq<char>| gone.to_set().contains(x) == previous@.difference(
            installed@,
        ).contains(x) by {
            assert(gone.contains(x) == (previous.ordered().contains(x) && keep(x)));
        }
        assert(gone.to_set() =~= previous@.difference(installed@));
    }
    let mut removals: Vec<String> = Vec::new();
    let ghost places = gone.map_values(|name: Seq<char>| paths::joined(target@, name));
    for i in 0..stale.len()
        invariant
            gone == text::texts(stale@),
            places == gone.map_values(|name: Seq<char>| paths::joined(target@, name)),
            text::texts(removals@) == places.take(i as int),
    {
        let ghost held = text::texts(removals@);
        let place = paths::join(target, stale[i].as_str());
        removals.push(place);
        assert(text::texts(removals@) =~= held.push(place@));
        assert(places[i as int] == place@);
        assert(places.take(i as int + 1) =~= held.push(places[i as int]));
    }
    assert(places.take(places.len() as int) =~= places);
    let mut steps: Vec<TreeStep> = Vec::new();
    let ghost removed = text::texts(removals@).map_values(
        |p: Seq<char>| TreeStepModel::Remove(p),
    );
    assert(tree_steps(steps@) =~= removed.take(0));
    for i in 0..removals.len()
        invariant
            removed == text::texts(removals@).map_values(
                |p: Seq<char>| TreeStepModel::Remove(p),
            ),
            tree_steps(steps@) == removed.take(i as int),
    {
        let ghost held = tree_steps(steps@);
        let step = TreeStep::Remove(removals[i].clone());
        steps.push(step);
        assert(removed[i as int] == step@);
        assert(tree_steps(steps@) =~= held.push(step@));
        assert(removed.take(i as int + 1) =~= held.push(removed[i as int]));
    }
    assert(removed.take(removed.len() as int) =~= removed);
    steps.push(TreeStep::Prune);
    steps.push(TreeStep::Unpack);
    steps.push(TreeStep::Record(manifest_body(&installed)));
    assert(tree_steps(steps@) =~= sync_steps(text::texts(removals@), installed));
    TreePlan { stale, removals, installed, bytes, steps }
}

/// Why a tree is not installed.
pub enum TreeError {
    /// The target is no absolute path.
    Relative(String),
    /// The archive cannot be read.
    Unreadable(String),
}

/// What the error says.
pub enum TreeErrorModel {
    Relative(Seq<char>),
    Unreadable(Seq<char>),
}

impl View for TreeError {
    type V = TreeErrorModel;

    open spec fn view(&self) -> TreeErrorModel {
        match self {
            TreeError::Relative(s) => TreeErrorModel::Relative(s@),
            TreeError::Unreadable(s) => TreeErrorModel::Unreadable(s@),
        }
    }
}

impl TreeErrorModel {
    pub open spec fn text(self) -> Seq<char> {
        match self {
            TreeErrorModel::Relative(s) => "sync target must be absolute: "@ + s,
            TreeErrorModel::Unreadable(s) => "read entry: "@ + s,
        }
    }
}

impl TreeError {
    pub fn message(&self) -> (r: String)
        ensures
            r@ == self@.text(),
    {
        match self {
            TreeError::Relative(s) => {
                let mut m = "sync target must be absolute: ".to_owned();
                m.append(s.as_str());
                m
            },
            TreeError::Unreadable(s) => {
                let mut m = "read entry: ".to_owned();
                m.append(s.as_str());
                m
            },
        }
    }
}

/// A path from the root.
pub open spec fn is_absolute(path: Seq<char>) -> bool {
    path.len() > 0 && path[0] == '/'
}

/// A tree can be installed at the target.
pub fn check_target(target: &str) -> (r: Result<(), TreeError>)
    ensures
        r is Ok <==> is_absolute(target@),
        r is Err ==> r->Err_0@ == TreeErrorModel::Relative(target@),
{
    let cs = text::chars_of(target);
    if cs.len() > 0 && cs[0] == '/' {
        Ok(())
    } else {
        Err(TreeError::Relative(target.to_owned()))
    }
}

/// A tree to install.
pub struct TreeSync {
    pub plan: TreePlan,
    /// The archive to unpack.
    pub archive: Vec<u8>,
}

/// How the archive is installed at the target: files of the last sync that
/// this one does not install are removed, the archive is unpacked, and the
/// new names are recorded.
pub fn sync_tree(target: &str, manifest: Option<&str>, gz_tar: &[u8]) -> (r: Result<
    TreeSync,
    TreeError,
>)
    ensures
        if !is_absolute(target@) {
            r is Err && r->Err_0@ == TreeErrorModel::Relative(target@)
        } else {
            match archive::contents(gz_tar@) {
                Err(e) => r is Err && r->Err_0@ == TreeErrorModel::Unreadable(e),
                Ok((tar, entries)) => {
                    &&& r is Ok
                    &&& r->Ok_0.archive@ == tar
                    &&& r->Ok_0.plan.follows(target@, text::opt_str(manifest), entries)
                },
            }
        },
{
    match check_target(target) {
        Ok(_) => {},
        Err(e) => return Err(e),
    }
    match archive::read(gz_tar) {
        Err(e) => Err(TreeError::Unreadable(e)),
        Ok(a) => Ok(
            TreeSync { plan: plan_tree(target, manifest, &a.entries), archive: a.bytes },
        ),
    }
}

/// The deletions of a sync reach only what an earlier sync installed: every
/// removed name was recorded before and is not installed now. What the guest
/// made on its own stays.
pub proof fn guest_files_survive(
    plan: TreePlan,
    target: Seq<char>,
    manifest: Option<Seq<char>>,
    entries: Seq<(Seq<char>, u64, bool)>,
    i: int,
)
    requires
        plan.follows(target, manifest, entries),
        0 <= i < plan.removals@.len(),
    ensures
        i < plan.stale@.len(),
        plan.removals@[i]@ == paths::joined(target, plan.stale@[i]@),
        recorded_names(manifest).contains(plan.stale@[i]@),
        !installed_names(entries).contains(plan.stale@[i]@),
{
    let stale = text::texts(plan.stale@);
    assert(text::texts(plan.removals@).len() == stale.len());
    assert(text::texts(plan.removals@)[i] == plan.removals@[i]@);
    assert(stale[i] == plan.stale@[i]@);
    assert(stale.to_set().contains(stale[i]));
}

/// Deletions propagate, and the host's tree has its way: a name that was
/// recorded and is not installed any more is removed before the archive is
/// unpacked, and so does not stand in the way of a directory in its place.
pub proof fn deletions_propagate(
    plan: TreePlan,
    target: Seq<char>,
    manifest: Option<Seq<char>>,
    entries: Seq<(Seq<char>, u64, bool)>,
    name: Seq<char>,
)
    requires
        plan.follows(target, manifest, entries),
        recorded_names(manifest).contains(name),
        !installed_names(entries).contains(name),
    ensures
        text::texts(plan.removals@).contains(paths::joined(target, name)),
        exists|i: int, j: int|
            0 <= i < j < plan.steps@.len() && #[trigger] plan.steps@[i]@ == TreeStepModel::Remove(
                paths::joined(target, name),
            ) && #[trigger] plan.steps@[j]@ == TreeStepModel::Unpack,
{
    let stale = text::texts(plan.stale@);
    assert(stale.to_set().contains(name));
    let k = choose|k: int| 0 <= k < stale.len() && stale[k] == name;
    let removals = text::texts(plan.removals@);
    assert(removals[k] == paths::joined(target, name));
    let steps = tree_steps(plan.steps@);
    let n = removals.len() as int;
    assert(steps[k] == TreeStepModel::Remove(removals[k]));
    assert(steps[n + 1] == TreeStepModel::Unpack);
    assert(steps.len() == plan.steps@.len());
    assert(plan.steps@[k]@ == steps[k]);
    assert(plan.steps@[n + 1]@ == steps[n + 1]);
}

/// A sync removes, then unpacks, then records: nothing is removed once the
/// archive is unpacked, it is unpacked once, and the record is written last.
pub proof fn sync_order(
    plan: TreePlan,
    target: Seq<char>,
    manifest: Option<Seq<char>>,
    entries: Seq<(Seq<char>, u64, bool)>,
    i: int,
)
    requires
        plan.follows(target, manifest, entries),
        0 <= i < plan.steps@.len(),
    ensures
        plan.steps@.len() == plan.removals@.len() + 3,
        plan.steps@[i]@ is Remove <==> i < plan.removals@.len(),
        plan.steps@[i]@ is Prune <==> i == plan.removals@.len(),
        plan.steps@[i]@ is Unpack <==> i == plan.removals@.len() + 1,
        plan.steps@[i]@ is Record <==> i == plan.removals@.len() + 2,
{
    let steps = tree_steps(plan.steps@);
    let removals = text::texts(plan.removals@);
    assert(steps.len() == plan.steps@.len());
    assert(steps[i] == plan.steps@[i]@);
    if i < removals.len() {
        assert(steps[i] == TreeStepModel::Remove(removals[i]));
    }
}

/// What is recorded: the installed names, one on each line.
pub open spec fn manifest_text(installed: names::NameSet) -> Seq<char> {
    seqs::join(installed.ordered(), "\n"@)
}

pub fn manifest_body(installed: &names::NameSet) -> (r: String)
    ensures
        r@ == manifest_text(*installed),
{
    text::join_with(&installed.items, "\n")
}

/// The names can be told apart when they are recorded one on each line.
pub open spec fn lines_hold(names: Seq<Seq<char>>) -> bool {
    &&& forall|i: int| 0 <= i < names.len() ==> !(#[trigger] names[i]).contains('\n')
    &&& forall|i: int|
        0 <= i < names.len() - 1 ==> text::without_return(#[trigger] names[i]) == names[i]
    &&& names.len() > 0 ==> names.last().len() > 0
}

/// What one sync records is what the next one reads, where no name holds a
/// line break.
pub proof fn manifest_round_trip(installed: names::NameSet)
    requires
        lines_hold(installed.ordered()),
    ensures
        recorded_names(Some(manifest_text(installed))) == installed@,
{
    reveal_strlit("\n");
    let all = installed.ordered();
    assert("\n"@ =~= seq!['\n']);
    let s = manifest_text(installed);
    if all.len() == 0 {
        assert(s =~= Seq::<char>::empty());
        let pieces = seqs::split(s, '\n');
        assert(pieces.drop_last() =~= Seq::<Seq<char>>::empty());
        assert(text::lines_of(s) =~= all);
    } else {
        seqs::split_of_join(all, '\n');
        let whole = all.drop_last().map_values(|p: Seq<char>| text::without_return(p));
        assert forall|i: int| 0 <= i < whole.len() implies whole[i] == all[i] by {
            assert(text::without_return(all[i]) == all[i]);
        }
        assert(whole =~= all.drop_last());
        assert(whole.push(all.last()) =~= all);
        assert(text::lines_of(s) == all);
    }
}

/// The directories to try to remove after a file: from the one it was in up
/// to the one just below the target.
pub open spec fn climb(dir: Seq<Seq<u8>>, target: Seq<Seq<u8>>) -> Seq<Seq<Seq<u8>>> {
    if target.is_prefix_of(dir) {
        Seq::new((dir.len() - target.len()) as nat, |i: int| dir.take(dir.len() - i))
    } else {
        Seq::<Seq<Seq<u8>>>::empty()
    }
}

/// The directories that the removed files were in.
pub open spec fn parents(removed: Seq<Seq<char>>) -> Set<Seq<Seq<u8>>> {
    Set::new(
        |names: Seq<Seq<u8>>|
            exists|i: int|
                0 <= i < removed.len() && paths::route_of(
                    proto::wire(#[trigger] removed[i]),
                ).parent() == Some(paths::RouteModel { absolute: true, names }),
    )
}

/// Directories to try to remove, one after the other, until one is not empty.
pub struct Climb {
    pub dirs: Vec<paths::Route>,
}

/// The chains of directories: from each in `order`, the last first, up to the target.
pub open spec fn climbs(
    chains: Seq<Climb>,
    order: Seq<Seq<Seq<u8>>>,
    target: Seq<Seq<u8>>,
) -> bool {
    &&& chains.len() == order.len()
    &&& forall|i: int|
        0 <= i < chains.len() ==> dirs::all_names((#[trigger] chains[i]).dirs@) == climb(
            order[order.len() - 1 - i],
            target,
        ) && forall|k: int|
            0 <= k < chains[i].dirs@.len() ==> (#[trigger] chains[i].dirs@[k]).absolute
}

/// The directories of the removed files, each once, in the order of their paths.
pub open spec fn in_order(order: Seq<Seq<Seq<u8>>>, removed: Seq<Seq<char>>) -> bool {
    &&& seqs::pairwise(order, dirs::path_order())
    &&& order.to_set() == parents(removed)
}

fn climb_from(dir: &paths::Route, target: &paths::Route) -> (r: Climb)
    requires
        dir.absolute,
        target.absolute,
    ensures
        dirs::all_names(r.dirs@) == climb(dir@.names, target@.names),
        forall|k: int| 0 <= k < r.dirs@.len() ==> (#[trigger] r.dirs@[k]).absolute,
{
    let mut out: Vec<paths::Route> = Vec::new();
    let ghost names = dir@.names;
    assert(dirs::all_names(out@) =~= Seq::<Seq<Seq<u8>>>::empty());
    if dir.is_below(target) {
        let mut n: usize = dir.names.len();
        let low = target.names.len();
        let ghost full = climb(names, target@.names);
        assert(full.take(0) =~= Seq::<Seq<Seq<u8>>>::empty());
        assert(target@.names.len() == low);
        while n > low
            invariant
                dir.absolute,
                names == dir@.names,
                names.len() == dir.names@.len(),
                low <= n <= dir.names@.len(),
                low == target@.names.len(),
                target@.names.is_prefix_of(names),
                full == climb(names, target@.names),
                dirs::all_names(out@) == full.take(names.len() - n),
                forall|k: int| 0 <= k < out@.len() ==> (#[trigger] out@[k]).absolute,
            decreases n,
        {
            let step = dir.ancestor(n);
            let ghost held = dirs::all_names(out@);
            let ghost rows = out@;
            out.push(step);
            assert(dirs::all_names(out@) =~= held.push(step@.names));
            assert(full[names.len() - n] == names.take(n as int));
            assert(full.take(names.len() - n + 1) =~= held.push(full[names.len() - n]));
            assert(step@.absolute);
            n = n - 1;
        }
        assert(full.take(names.len() - low) =~= full);
    }
    Climb { dirs: out }
}

/// The chains start at the directories of the removed files, the last in the
/// order of paths first.
pub open spec fn prunes(chains: Seq<Climb>, target: Seq<char>, removed: Seq<Seq<char>>) -> bool {
    exists|order: Seq<Seq<Seq<u8>>>|
        in_order(order, removed) && climbs(
            chains,
            order,
            paths::route_of(proto::wire(target)).names,
        )
}

/// Directories that may have become empty: for each one that a removed file
/// was in, deepest paths first, the chain of directories to try.
pub fn prune(target: &str, removed: &[String]) -> (r: Vec<Climb>)
    requires
        is_absolute(target@),
    ensures
        prunes(r@, target@, text::texts(removed@)),
{
    let ghost files = text::texts(removed@);
    let base = paths::Route::parse(target.as_bytes());
    proof {
        lemma_absolute_wire(target@);
    }
    let mut set = dirs::DirSet::new();
    assert(parents(files.take(0)) =~= Set::<Seq<Seq<u8>>>::empty());
    for i in 0..removed.len()
        invariant
            files == text::texts(removed@),
            set.well_formed(),
            set@ == parents(files.take(i as int)),
    {
        let ghost t = files.take(i as int + 1);
        let ghost before = files.take(i as int);
        assert(t =~= before.push(files[i as int]));
        assert(files[i as int] == removed@[i as int]@);
        let route = paths::Route::parse(removed[i].as_str().as_bytes());
        let ghost model = paths::route_of(proto::wire(files[i as int]));
        let n = route.names.len();
        assert(route@.names.len() == n);
        if route.absolute && n > 0 {
            let parent = route.ancestor(n - 1);
            let ghost names = parent@.names;
            assert(names =~= route@.names.drop_last());
            set.insert(parent);
            assert(parents(t) =~= parents(before).insert(names)) by {
                assert forall|x: Seq<Seq<u8>>| parents(t).contains(x) == parents(before).insert(
                    names,
                ).contains(x) by {
                    lemma_parents_push(before, files[i as int], x);
                }
            }
        } else {
            assert(parents(t) =~= parents(before)) by {
                assert forall|x: Seq<Seq<u8>>| parents(t).contains(x) == parents(before).contains(
                    x,
                ) by {
                    lemma_parents_push(before, files[i as int], x);
                }
            }
        }
    }
    assert(files.take(files.len() as int) =~= files);
    let ghost order = set.ordered();
    let n = set.dirs.len();
    let mut out: Vec<Climb> = Vec::new();
    let mut i: usize = 0;
    while i < n
        invariant
            i <= n,
            n == set.dirs@.len(),
            set.well_formed(),
            order == set.ordered(),
            order.len() == n,
            base.absolute,
            out@.len() == i,
            forall|k: int|
                0 <= k < i ==> dirs::all_names((#[trigger] out@[k]).dirs@) == climb(
                    order[n - 1 - k],
                    base@.names,
                ) && forall|m: int|
                    0 <= m < out@[k].dirs@.len() ==> (#[trigger] out@[k].dirs@[m]).absolute,
        decreases n - i,
    {
        let dir = &set.dirs[n - 1 - i];
        assert(order[n - 1 - i] == dir@.names);
        out.push(climb_from(dir, &base));
        i = i + 1;
    }
    assert(in_order(order, files) && climbs(out@, order, base@.names));
    out
}

proof fn lemma_absolute_wire(s: Seq<char>)
    requires
        is_absolute(s),
    ensures
        paths::route_of(proto::wire(s)).absolute,
{
    let t = s.drop_first();
    assert(proto::wire(s) == vstd::utf8::encode_scalar(s[0] as u32) + proto::wire(t));
    assert('/' as u32 == 47);
    assert((47u32 & 0x7F) as u8 == 47u8) by (bit_vector);
    assert(vstd::utf8::encode_scalar(47) =~= seq![47u8]);
}

proof fn lemma_parents_push(before: Seq<Seq<char>>, file: Seq<char>, x: Seq<Seq<u8>>)
    ensures
        parents(before.push(file)).contains(x) == (parents(before).contains(x) || paths::route_of(
            proto::wire(file),
        ).parent() == Some(paths::RouteModel { absolute: true, names: x })),
{
    let more = before.push(file);
    if parents(before).contains(x) {
        let i = choose|i: int|
            0 <= i < before.len() && paths::route_of(proto::wire(#[trigger] before[i])).parent()
                == Some(paths::RouteModel { absolute: true, names: x });
        assert(more[i] == before[i]);
    }
    if parents(more).contains(x) {
        let i = choose|i: int|
            0 <= i < more.len() && paths::route_of(proto::wire(#[trigger] more[i])).parent()
                == Some(paths::RouteModel { absolute: true, names: x });
        if i < before.len() {
            assert(more[i] == before[i]);
        }
    }
    assert(more[before.len() as int] == file);
}

/// Cleaning up never leaves the target: every directory that is tried is
/// strictly below it.
pub proof fn prunes_below_target(
    chains: Seq<Climb>,
    order: Seq<Seq<Seq<u8>>>,
    target: Seq<Seq<u8>>,
    i: int,
    k: int,
)
    requires
        climbs(chains, order, target),
        0 <= i < chains.len(),
        0 <= k < chains[i].dirs@.len(),
    ensures
        target.is_prefix_of(chains[i].dirs@[k]@.names),
        target.len() < chains[i].dirs@[k]@.names.len(),
{
    let dir = order[order.len() - 1 - i];
    let names = dirs::all_names(chains[i].dirs@);
    assert(names == climb(dir, target));
    assert(names[k] == chains[i].dirs@[k]@.names);
    assert(names[k] == dir.take(dir.len() - k));
    assert(target =~= names[k].subrange(0, target.len() as int)) by {
        assert(target =~= dir.subrange(0, target.len() as int));
    }
}

/// What a sync reports.
pub fn sync_message(files: usize, megabytes: &str, target: &str) -> (r: String)
    ensures
        r@ == "synced "@ + text::decimal(files as nat) + " files ("@ + megabytes@ + " MB) to "@
            + target@,
{
    let n = text::format_decimal(files as u64);
    let mut s = text::concat3("synced ", n.as_str(), " files (");
    s.append(megabytes);
    s.append(" MB) to ");
    s.append(target);
    s
}

/// What a request asks of the agent.
pub enum Request {
    /// Install a tree at the target.
    SyncTree { target: String, gz_tar: Vec<u8> },
    /// A frame to install a tree that cannot be taken apart.
    Malformed(proto::FrameError),
    /// Flush the file systems.
    Quiesce,
    /// Flush the file systems and power off.
    PowerOff,
    /// Run a shell command.
    Shell(String),
}

/// What a request says.
pub enum RequestModel {
    SyncTree { target: Seq<char>, gz_tar: Seq<u8> },
    Malformed(proto::FrameError),
    Quiesce,
    PowerOff,
    Shell(Seq<char>),
}

impl View for Request {
    type V = RequestModel;

    open spec fn view(&self) -> RequestModel {
        match self {
            Request::SyncTree { target, gz_tar } => RequestModel::SyncTree {
                target: target@,
                gz_tar: gz_tar@,
            },
            Request::Malformed(e) => RequestModel::Malformed(*e),
            Request::Quiesce => RequestModel::Quiesce,
            Request::PowerOff => RequestModel::PowerOff,
            Request::Shell(s) => RequestModel::Shell(s@),
        }
    }
}

/// The reserved commands, and every other one for the shell.
pub open spec fn meaning(cmd: Seq<u8>) -> RequestModel {
    if proto::is_synctree(cmd) {
        match proto::synctree_body(cmd.skip(proto::wire(proto::SYNCTREE_PREFIX@).len() as int)) {
            Ok((target, gz_tar)) => RequestModel::SyncTree { target, gz_tar },
            Err(e) => RequestModel::Malformed(e),
        }
    } else if cmd == proto::wire(proto::QUIESCE@) {
        RequestModel::Quiesce
    } else if cmd == proto::wire(proto::POWEROFF@) {
        RequestModel::PowerOff
    } else {
        RequestModel::Shell(text::lossy_of(cmd))
    }
}

/// What the agent is asked to do.
pub fn classify(cmd: &[u8]) -> (r: Request)
    ensures
        r@ == meaning(cmd@),
{
    if bytes::has_prefix(cmd, proto::SYNCTREE_PREFIX.as_bytes()) {
        return match proto::parse_synctree(cmd) {
            Ok((target, gz_tar)) => Request::SyncTree { target, gz_tar },
            Err(e) => Request::Malformed(e),
        };
    }
    if bytes::same_bytes(cmd, proto::QUIESCE.as_bytes()) {
        return Request::Quiesce;
    }
    if bytes::same_bytes(cmd, proto::POWEROFF.as_bytes()) {
        return Request::PowerOff;
    }
    Request::Shell(text::lossy_text(cmd))
}

/// What the host frames as a tree is what the agent installs.
pub proof fn tree_arrives(target: Seq<char>, gz_tar: Seq<u8>)
    requires
        !target.contains('\0'),
    ensures
        meaning(proto::synctree(target, gz_tar)) == (RequestModel::SyncTree { target, gz_tar }),
{
    proto::synctree_round_trip(target, gz_tar);
}

/// The exit code on the wire: that of the command where a byte holds it.
/// Anything else, such as a shell that a signal ended, is a failure.
pub open spec fn wire_code(code: Option<i32>) -> u8 {
    match code {
        Some(c) => if 0 <= c <= 255 {
            c as u8
        } else {
            255
        },
        None => 255,
    }
}

/// Only a command that succeeded is reported as a success.
pub proof fn failures_stay_failures(code: Option<i32>)
    ensures
        wire_code(code) == 0 <==> code == Some(0i32),
{
}

/// What a shell command that ran is answered with.
pub open spec fn ran(code: Option<i32>, stdout: Seq<u8>, stderr: Seq<u8>) -> (u8, Seq<u8>) {
    (wire_code(code), stdout + stderr)
}

/// The reply to a shell command that ran: its exit code, and what it wrote
/// to its standard output and then to its standard error.
pub fn shell_reply(code: Option<i32>, stdout: &[u8], stderr: &[u8]) -> (r: (u8, Vec<u8>))
    ensures
        (r.0, r.1@) == ran(code, stdout@, stderr@),
{
    let byte: u8 = match code {
        Some(c) => if 0 <= c && c <= 255 {
            c as u8
        } else {
            255
        },
        None => 255,
    };
    let mut out: Vec<u8> = Vec::new();
    out.extend_from_slice(stdout);
    out.extend_from_slice(stderr);
    (byte, out)
}

/// Exit codes round-trip: a code that fits in a byte reaches the host as it is.
pub proof fn exit_codes_round_trip(code: i32, out: Seq<u8>, rest: Seq<u8>)
    requires
        0 <= code <= 255,
        out.len() <= u32::MAX,
    ensures
        proto::decode_response(proto::response(wire_code(Some(code)), out) + rest)
            == proto::Received::Complete((code as u8, out)),
{
    proto::response_round_trip(wire_code(Some(code)), out, rest);
}

/// The reply to a shell command that could not be started.
pub fn shell_failure(message: &str) -> (r: (u8, Vec<u8>))
    ensures
        r.0 == 127,
        r.1@ == proto::wire(message@),
{
    let mut out: Vec<u8> = Vec::new();
    out.extend_from_slice(message.as_bytes());
    (127, out)
}

/// The reply to a request to install a tree.
pub fn tree_reply(outcome: &Result<String, String>) -> (r: (u8, Vec<u8>))
    ensures
        match *outcome {
            Ok(m) => r.0 == 0 && r.1@ == proto::wire(m@),
            Err(m) => r.0 == 1 && r.1@ == proto::wire(m@),
        },
{
    let mut out: Vec<u8> = Vec::new();
    match outcome {
        Ok(m) => {
            out.extend_from_slice(m.as_str().as_bytes());
            (0, out)
        },
        Err(m) => {
            out.extend_from_slice(m.as_str().as_bytes());
            (1, out)
        },
    }
}

/// Name of the serial port on which the agent answers.
pub const SERIAL_PORT_NAME: &'static str = "moo-exec";

/// The vsock port on which the agent answers.
pub const VSOCK_PORT: u32 = 1024;

/// A port of the virtual console: its name as the kernel gives it, and its device.
pub struct PortEntry {
    pub name: String,
    pub device: String,
}

/// The device of the first port with the agent's name.
pub open spec fn serial_device(entries: Seq<PortEntry>) -> Option<Seq<char>>
    decreases entries.len(),
{
    if entries.len() == 0 {
        None
    } else if text::trimmed(entries[0].name@) == SERIAL_PORT_NAME@ {
        Some("/dev/"@ + entries[0].device@)
    } else {
        serial_device(entries.skip(1))
    }
}

pub fn find_serial_port(entries: &[PortEntry]) -> (r: Option<String>)
    ensures
        text::opt_text(r) == serial_device(entries@),
{
    let mut i: usize = 0;
    let n = entries.len();
    assert(entries@.skip(0) =~= entries@);
    while i < n
        invariant
            n == entries@.len(),
            i <= n,
            serial_device(entries@) == serial_device(entries@.skip(i as int)),
        decreases n - i,
    {
        let ghost t = entries@.skip(i as int);
        assert(t[0] == entries@[i as int]);
        assert(t.skip(1) =~= entries@.skip(i as int + 1));
        if text::same(text::trim(entries[i].name.as_str()).as_str(), SERIAL_PORT_NAME) {
            let mut dev = "/dev/".to_owned();
            dev.append(entries[i].device.as_str());
            return Some(dev);
        }
        i = i + 1;
    }
    None
}

/// How the agent is reached.
#[derive(PartialEq, Eq, Structural)]
pub enum Mode {
    Vsock,
    Serial,
}

/// The mode that a word names.
pub open spec fn mode_of(word: Option<Seq<char>>) -> Option<Mode> {
    match word {
        None => Some(Mode::Vsock),
        Some(s) => if s == "--vsock"@ {
            Some(Mode::Vsock)
        } else if s == "--serial"@ {
            Some(Mode::Serial)
        } else {
            None
        },
    }
}

/// The mode that the agent's first argument names; vsock where there is none.
pub fn agent_mode(arg: Option<&str>) -> (r: Option<Mode>)
    ensures
        r == mode_of(text::opt_str(arg)),
{
    match arg {
        None => Some(Mode::Vsock),
        Some(s) => if text::same(s, "--vsock") {
            Some(Mode::Vsock)
        } else if text::same(s, "--serial") {
            Some(Mode::Serial)
        } else {
            None
        },
    }
}

/// Someone may execute the file.
pub open spec fn executable(mode: u32) -> bool {
    mode & 0x49 != 0
}

/// The boot script is run if it is a file that someone may execute.
pub fn runs_at_boot(is_file: bool, mode: u32) -> (r: bool)
    ensures
        r == (is_file && executable(mode)),
{
    is_file && mode & 0x49 != 0
}

/// What is logged of the boot script: nothing where it succeeded.
pub fn boot_script_report(success: bool, code: Option<i32>, stderr: &[u8]) -> (r: Option<String>)
    ensures
        r is None <==> success,
        r is Some ==> r->0@ == "moo-agent: rc.local exited "@ + text::decimal_signed(
            match code {
                Some(c) => c as int,
                None => -1,
            },
        ) + ": "@ + text::trimmed(text::lossy_of(stderr@)),
{
    if success {
        return None;
    }
    let c: i64 = match code {
        Some(c) => c as i64,
        None => -1,
    };
    let n = text::format_signed(c);
    let mut s = text::concat3("moo-agent: rc.local exited ", n.as_str(), ": ");
    s.append(text::trim(text::lossy_text(stderr).as_str()).as_str());
    Some(s)
}

} // verus!
