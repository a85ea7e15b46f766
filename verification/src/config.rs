//! `moo.toml`, the project configuration: the base image reference and the
//! recipe inputs whose hash is the golden image's identity, resources,
//! exposed ports and quiesce commands.
use crate::bytes;
use crate::digest;
use crate::git;
use crate::paths;
use crate::proto;
use crate::sync;
use crate::text;
use vstd::prelude::*;

verus! {

#[derive(Debug)]
pub struct MooToml {
    pub project: Project,
    pub recipe: Recipe,
    pub resources: Resources,
    pub network: Network,
    pub quiesce: Quiesce,
}

#[derive(Debug)]
pub struct Project {
    pub name: Option<String>,
    /// OCI reference of the base image.
    pub base: Option<String>,
    /// Guest directory the working tree is synced into.
    pub workdir: Option<String>,
}

/// The guest directory of a project that names none.
pub const DEFAULT_WORKDIR: &'static str = "/srv/app";

#[derive(Debug)]
pub struct Recipe {
    pub lockfiles: Vec<String>,
}

#[derive(Debug)]
pub struct Resources {
    pub cpus: Option<u8>,
    /// For example "4GiB", "2048MiB", or a bare MiB count.
    pub memory: Option<String>,
}

#[derive(Debug)]
pub struct Network {
    /// Guest ports the project's runtime listens on. Each gets a stable
    /// host port per machine.
    pub ports: Vec<u16>,
}

#[derive(Debug)]
pub struct Quiesce {
    /// Commands the guest runs during `moo save`, before the host flush.
    pub commands: Vec<String>,
}

impl Default for Project {
    fn default() -> (r: Project)
        ensures
            r.name is None,
            r.base is None,
            r.workdir is None,
    {
        Project { name: None, base: None, workdir: None }
    }
}

impl Default for Recipe {
    fn default() -> (r: Recipe)
        ensures
            r.lockfiles@.len() == 0,
    {
        Recipe { lockfiles: Vec::new() }
    }
}

impl Default for Resources {
    fn default() -> (r: Resources)
        ensures
            r.cpus is None,
            r.memory is None,
    {
        Resources { cpus: None, memory: None }
    }
}

impl Default for Network {
    fn default() -> (r: Network)
        ensures
            r.ports@.len() == 0,
    {
        Network { ports: Vec::new() }
    }
}

impl Default for Quiesce {
    fn default() -> (r: Quiesce)
        ensures
            r.commands@.len() == 0,
    {
        Quiesce { commands: Vec::new() }
    }
}

impl Default for MooToml {
    fn default() -> (r: MooToml)
        ensures
            r.project.name is None,
            r.project.base is None,
            r.project.workdir is None,
            r.recipe.lockfiles@.len() == 0,
            r.resources.cpus is None,
            r.resources.memory is None,
            r.network.ports@.len() == 0,
            r.quiesce.commands@.len() == 0,
    {
        MooToml {
            project: Project::default(),
            recipe: Recipe::default(),
            resources: Resources::default(),
            network: Network::default(),
            quiesce: Quiesce::default(),
        }
    }
}

pub const DEFAULT_CPUS: u8 = 2;

pub const DEFAULT_RAM_MIB: u32 = 4096;

/// The MiB that a memory size stands for. A size in GiB may exceed 32 bits.
pub open spec fn memory_mib(s: Seq<char>) -> Option<nat> {
    let t = text::trimmed(s);
    if "GiB"@.is_suffix_of(t) {
        match text::unsigned_value(text::trimmed(t.take(t.len() - "GiB"@.len())), u32::MAX as nat) {
            Some(g) => Some(g * 1024),
            None => None,
        }
    } else if "MiB"@.is_suffix_of(t) {
        text::unsigned_value(text::trimmed(t.take(t.len() - "MiB"@.len())), u32::MAX as nat)
    } else {
        text::unsigned_value(t, u32::MAX as nat)
    }
}

/// The MiB that a memory size stands for; nothing where it is no size.
pub fn parse_memory_mib(s: &str) -> (r: Option<u64>)
    ensures
        match r {
            Some(v) => memory_mib(s@) == Some(v as nat),
            None => memory_mib(s@) is None,
        },
{
    let t = text::trim(s);
    if let Some(n) = text::strip_suffix(t.as_str(), "GiB") {
        return match text::parse_unsigned(text::trim(n.as_str()).as_str(), 0xffff_ffff) {
            Some(g) => Some(g * 1024),
            None => None,
        };
    }
    if let Some(n) = text::strip_suffix(t.as_str(), "MiB") {
        return text::parse_unsigned(text::trim(n.as_str()).as_str(), 0xffff_ffff);
    }
    text::parse_unsigned(t.as_str(), 0xffff_ffff)
}

impl MooToml {
    pub open spec fn cpus_value(&self) -> u8 {
        match self.resources.cpus {
            Some(n) => n,
            None => DEFAULT_CPUS,
        }
    }

    pub fn cpus(&self) -> (r: u8)
        ensures
            r == self.cpus_value(),
    {
        match self.resources.cpus {
            Some(n) => n,
            None => DEFAULT_CPUS,
        }
    }

    /// The MiB of memory configured, or the default where none is or it is no size.
    pub open spec fn ram_value(&self) -> nat {
        match self.resources.memory {
            None => DEFAULT_RAM_MIB as nat,
            Some(s) => match memory_mib(s@) {
                Some(v) => v,
                None => DEFAULT_RAM_MIB as nat,
            },
        }
    }

    /// The configured memory is at most what 32 bits of MiB can say.
    pub open spec fn ram_fits(&self) -> bool {
        self.ram_value() <= u32::MAX
    }

    pub fn has_fitting_ram(&self) -> (r: bool)
        ensures
            r == self.ram_fits(),
    {
        match &self.resources.memory {
            None => true,
            Some(s) => match parse_memory_mib(s.as_str()) {
                Some(v) => v <= 0xffff_ffff,
                None => true,
            },
        }
    }

    pub fn ram_mib(&self) -> (r: u32)
        requires
            self.ram_fits(),
        ensures
            r == self.ram_value(),
    {
        match &self.resources.memory {
            None => DEFAULT_RAM_MIB,
            Some(s) => match parse_memory_mib(s.as_str()) {
                Some(v) => v as u32,
                None => DEFAULT_RAM_MIB,
            },
        }
    }

    pub open spec fn workdir_text(&self) -> Seq<char> {
        match self.project.workdir {
            Some(w) => w@,
            None => DEFAULT_WORKDIR@,
        }
    }

    pub fn workdir(&self) -> (r: &str)
        ensures
            r@ == self.workdir_text(),
    {
        match &self.project.workdir {
            Some(w) => w.as_str(),
            None => DEFAULT_WORKDIR,
        }
    }

    /// The base as it enters the recipe.
    pub open spec fn recipe_base(&self) -> Seq<char> {
        match self.project.base {
            Some(b) => b@,
            None => "default"@,
        }
    }

    /// What the identity of the golden image is the hash of.
    pub open spec fn recipe_input(&self, contents: Seq<Option<Vec<u8>>>) -> Seq<u8> {
        seq![sync::AGENT_PROTO_VERSION] + proto::wire(self.recipe_base()) + lockfile_input(
            text::texts(self.recipe.lockfiles@),
            contents,
        ) + seq![self.cpus_value()] + bytes::little_endian(self.ram_value(), 4)
    }

    /// The golden image's identity, from the base, the lockfiles and their
    /// contents where they can be read, and the resources.
    pub fn recipe_hash(&self, contents: &[Option<Vec<u8>>]) -> (r: String)
        requires
            self.ram_fits(),
            contents@.len() == self.recipe.lockfiles@.len(),
        ensures
            r@ == digest::hex_digest(self.recipe_input(contents@)),
            r@.len() == 64,
    {
        let mut input: Vec<u8> = Vec::new();
        input.push(sync::AGENT_PROTO_VERSION);
        match &self.project.base {
            Some(b) => {
                input.extend_from_slice(b.as_str().as_bytes());
            },
            None => {
                input.extend_from_slice("default".as_bytes());
            },
        }
        let ghost head = input@;
        assert(head =~= seq![sync::AGENT_PROTO_VERSION] + proto::wire(self.recipe_base()));
        let ghost names = text::texts(self.recipe.lockfiles@);
        assert(head + lockfile_input(names.take(0), contents@.take(0)) =~= head);
        for i in 0..self.recipe.lockfiles.len()
            invariant
                contents@.len() == self.recipe.lockfiles@.len(),
                names == text::texts(self.recipe.lockfiles@),
                input@ == head + lockfile_input(names.take(i as int), contents@.take(i as int)),
        {
            proof {
                assert(names.take(i as int + 1).drop_last() =~= names.take(i as int));
                assert(contents@.take(i as int + 1).drop_last() =~= contents@.take(i as int));
            }
            input.extend_from_slice(self.recipe.lockfiles[i].as_str().as_bytes());
            if let Some(content) = &contents[i] {
                input.extend_from_slice(content);
            }
            assert(input@ =~= head + lockfile_input(
                names.take(i as int + 1),
                contents@.take(i as int + 1),
            ));
        }
        assert(names.take(names.len() as int) =~= names);
        assert(contents@.take(contents@.len() as int) =~= contents@);
        input.push(self.cpus());
        bytes::push_little_endian(&mut input, self.ram_mib() as u128, 4);
        assert(input@ =~= self.recipe_input(contents@));
        digest::content_digest(&input)
    }
}

/// What one lockfile adds to the recipe: its name, and its content where it
/// can be read.
pub open spec fn lockfile_part(name: Seq<char>, content: Option<Vec<u8>>) -> Seq<u8> {
    match content {
        Some(c) => proto::wire(name) + c@,
        None => proto::wire(name),
    }
}

/// What the lockfiles add to the recipe.
pub open spec fn lockfile_input(names: Seq<Seq<char>>, contents: Seq<Option<Vec<u8>>>) -> Seq<u8>
    decreases names.len(),
{
    if names.len() == 0 || contents.len() == 0 {
        Seq::<u8>::empty()
    } else {
        lockfile_input(names.drop_last(), contents.drop_last()) + lockfile_part(
            names.last(),
            contents.last(),
        )
    }
}

/// Equal contents, file by file.
pub open spec fn same_contents(a: Seq<Option<Vec<u8>>>, b: Seq<Option<Vec<u8>>>) -> bool {
    &&& a.len() == b.len()
    &&& forall|i: int|
        0 <= i < a.len() ==> match (#[trigger] a[i], b[i]) {
            (Some(x), Some(y)) => x@ == y@,
            (None, None) => true,
            _ => false,
        }
}

proof fn lemma_same_lockfiles(
    names: Seq<Seq<char>>,
    a: Seq<Option<Vec<u8>>>,
    b: Seq<Option<Vec<u8>>>,
)
    requires
        same_contents(a, b),
    ensures
        lockfile_input(names, a) == lockfile_input(names, b),
    decreases names.len(),
{
    if names.len() > 0 && a.len() > 0 {
        assert forall|i: int| 0 <= i < a.drop_last().len() implies match (
            #[trigger] a.drop_last()[i],
            b.drop_last()[i],
        ) {
            (Some(x), Some(y)) => x@ == y@,
            (None, None) => true,
            _ => false,
        } by {
            assert(a.drop_last()[i] == a[i]);
            assert(b.drop_last()[i] == b[i]);
        }
        lemma_same_lockfiles(names.drop_last(), a.drop_last(), b.drop_last());
        let last = a[a.len() - 1];
        assert(b.last() == b[a.len() - 1]);
    }
}

/// Two developers with the same base, lockfiles, lockfile contents and
/// resources get the same image identity, whatever else they configure.
pub proof fn recipe_identity(
    a: MooToml,
    b: MooToml,
    a_contents: Seq<Option<Vec<u8>>>,
    b_contents: Seq<Option<Vec<u8>>>,
)
    requires
        a.recipe_base() == b.recipe_base(),
        text::texts(a.recipe.lockfiles@) == text::texts(b.recipe.lockfiles@),
        same_contents(a_contents, b_contents),
        a.cpus_value() == b.cpus_value(),
        a.ram_value() == b.ram_value(),
    ensures
        digest::hex_digest(a.recipe_input(a_contents)) == digest::hex_digest(
            b.recipe_input(b_contents),
        ),
{
    lemma_same_lockfiles(text::texts(a.recipe.lockfiles@), a_contents, b_contents);
}

/// The project is at the top level of the checkout that git knows, or here.
pub open spec fn project_at<G: Fn(Vec<String>) -> Option<String>>(
    run_git: G,
    root: Seq<char>,
) -> bool {
    exists|top: Option<String>|
        {
            &&& #[trigger] git::answered(run_git, git::toplevel_args(), top)
            &&& root == match top {
                Some(t) => t@,
                None => "."@,
            }
        }
}

/// Where the project is: the top level of the checkout, or the current directory.
pub fn project_root<G: Fn(Vec<String>) -> Option<String>>(run_git: &G) -> (r: String)
    requires
        forall|v: Vec<String>| #[trigger] call_requires(*run_git, (v,)),
    ensures
        project_at(*run_git, r@),
{
    let top = git::toplevel(run_git);
    match top {
        Some(t) => t,
        None => ".".to_owned(),
    }
}

/// The configuration file of the project.
pub fn config_file(root: &str) -> (r: String)
    ensures
        r@ == paths::joined(root@, "moo.toml"@),
{
    paths::join(root, "moo.toml")
}

} // verus!
