//! The stash engine: configuration of the archive root, enumeration and
//! selection of stash entries, and the plans that stash, pop and remove
//! carry out on disk.
use vstd::prelude::*;
use vstd::relations::{sorted_by, total_ordering};
use vstd::seq_lib::{group_to_multiset_ensures, lemma_multiset_commutative, lemma_sorted_unique};
use crate::decimal::{decimal_text, i64_of_text, i64_text, int_text, parse_i64, push_decimal};
use crate::path::{base_name, base_name_of, join, join_path, restore_path, restore_target, strip_root, strip_root_of};

verus! {

/// The order of stash entries: a newer (larger) timestamp comes first.
pub open spec fn newest_first_order() -> spec_fn(i64, i64) -> bool {
    |a: i64, b: i64| a >= b
}

/// The timestamps that the names of the archive root's children denote, in
/// directory order; names that are not integers are left out.
pub open spec fn timestamps(names: Seq<String>) -> Seq<i64>
    decreases names.len(),
{
    if names.len() == 0 {
        Seq::empty()
    } else {
        let prev = timestamps(names.drop_last());
        match i64_of_text(names.last()@) {
            Some(t) => prev.push(t),
            None => prev,
        }
    }
}

/// The stash entries of an archive root whose children have these names,
/// newest first; an entry's position in this sequence is its index.
pub open spec fn stash_entries(names: Seq<String>) -> Seq<i64> {
    timestamps(names).sort_by(newest_first_order())
}

/// Newest-first is a total order on timestamps.
pub proof fn lemma_order_total()
    ensures
        total_ordering(newest_first_order()),
{
}

proof fn lemma_insert_multiset(s: Seq<i64>, p: int, x: i64)
    requires
        0 <= p <= s.len(),
    ensures
        s.insert(p, x).to_multiset() =~= s.to_multiset().insert(x),
{
    broadcast use group_to_multiset_ensures;
    let a = s.subrange(0, p);
    let b = s.subrange(p, s.len() as int);
    assert(s.insert(p, x) =~= a.push(x) + b);
    assert(s =~= a + b);
    lemma_multiset_commutative(a.push(x), b);
    lemma_multiset_commutative(a, b);
}

/// The stash entries among the children named `names`, newest first.
pub fn get_stash_list(names: &Vec<String>) -> (r: Vec<i64>)
    ensures
        r@ == stash_entries(names@),
{
    let mut r: Vec<i64> = Vec::new();
    let mut i: usize = 0;
    while i < names.len()
        invariant
            i <= names@.len(),
            sorted_by(r@, newest_first_order()),
            r@.to_multiset() == timestamps(names@.subrange(0, i as int)).to_multiset(),
        decreases names@.len() - i,
    {
        proof {
            assert(names@.subrange(0, i + 1).drop_last() =~= names@.subrange(0, i as int));
            assert(names@.subrange(0, i + 1).last() == names@[i as int]);
        }
        match parse_i64(names[i].as_str()) {
            Some(t) => {
                let mut p: usize = 0;
                while p < r.len() && r[p] >= t
                    invariant
                        p <= r@.len(),
                        forall|k: int| 0 <= k < p ==> r@[k] >= t,
                    decreases r@.len() - p,
                {
                    p = p + 1;
                }
                let ghost old_r = r@;
                r.insert(p, t);
                proof {
                    broadcast use group_to_multiset_ensures;
                    let pre = timestamps(names@.subrange(0, i as int));
                    assert(timestamps(names@.subrange(0, i + 1)) == pre.push(t));
                    assert(pre.push(t).to_multiset() =~= pre.to_multiset().insert(t));
                    lemma_insert_multiset(old_r, p as int, t);
                    assert(r@ =~= old_r.insert(p as int, t));
                    assert forall|a: int, b: int| 0 <= a < b < r@.len() implies
                        #[trigger] (newest_first_order())(r@[a], r@[b]) by {
                        if a < p && b == p {
                        } else if a == p && b > p {
                            assert(old_r[p as int] < t);
                            assert((newest_first_order())(old_r[p as int], old_r[b - 1]));
                        } else if a < p && b > p {
                            assert((newest_first_order())(old_r[a], old_r[b - 1]));
                        } else if b < p {
                            assert((newest_first_order())(old_r[a], old_r[b]));
                        } else {
                            assert((newest_first_order())(old_r[a - 1], old_r[b - 1]));
                        }
                    }
                }
            },
            None => {
                assert(timestamps(names@.subrange(0, i + 1)) == timestamps(names@.subrange(0, i as int)));
            },
        }
        i = i + 1;
    }
    proof {
        assert(names@.subrange(0, i as int) =~= names@);
        let ts = timestamps(names@);
        lemma_order_total();
        ts.lemma_sort_by_ensures(newest_first_order());
        lemma_sorted_unique(r@, ts.sort_by(newest_first_order()), newest_first_order());
    }
    r
}


/// The archive root that applies when no configuration is given.
pub open spec fn default_archive_path() -> Seq<char> {
    "~/.local/share/stashit/"@
}

/// The user's configuration: where the archive root lies. A leading `~`
/// stands for the home directory.
pub struct StashConfig {
    pub path: String,
}

impl Default for StashConfig {
    fn default() -> (r: Self)
        ensures
            r.path@ == default_archive_path(),
    {
        StashConfig { path: String::from_str("~/.local/share/stashit/") }
    }
}

/// The path that a configuration names, or the default one.
pub open spec fn configured_path(cfg: Option<StashConfig>) -> Seq<char> {
    match cfg {
        Some(c) => c.path@,
        None => default_archive_path(),
    }
}

/// Whether a path begins with the home directory shorthand `~` as a whole
/// component.
pub open spec fn starts_at_home(p: Seq<char>) -> bool {
    p.len() > 0 && p[0] == '~' && (p.len() == 1 || p[1] == '/')
}

/// The archive root for a configured path: a leading `~` is replaced by the
/// home directory, or by `/tmp/` where none is known.
pub open spec fn archive_root(cfg: Seq<char>, home: Option<Seq<char>>) -> Seq<char> {
    if starts_at_home(cfg) {
        let h = match home {
            Some(h) => h,
            None => "/tmp/"@,
        };
        join_path(h, strip_root(cfg.drop_first()))
    } else {
        cfg
    }
}

/// The text an optional string holds.
pub open spec fn text_of(o: Option<String>) -> Option<Seq<char>> {
    match o {
        Some(s) => Some(s@),
        None => None,
    }
}

/// The directory of the stash entry with timestamp `t` below `root`.
pub open spec fn entry_dir(root: Seq<char>, t: i64) -> Seq<char> {
    join_path(root, int_text(t as int))
}

/// The absolute path that a stash input denotes when the process runs in `cwd`.
pub open spec fn absolute_path(cwd: Seq<char>, file: Seq<char>) -> Seq<char> {
    join_path(cwd, file)
}

/// Where a stash input is stored in the entry with timestamp `now`: its
/// absolute path, made relative to the filesystem root, below the entry.
pub open spec fn stash_target(root: Seq<char>, now: i64, cwd: Seq<char>, file: Seq<char>) -> Seq<char> {
    join_path(entry_dir(root, now), strip_root(absolute_path(cwd, file)))
}

pub open spec fn is_rooted(p: Seq<char>) -> bool {
    p.len() > 0 && p[0] == '/'
}

/// Whether position `pos` is chosen by the selectors: all positions where
/// there are none, else those whose decimal text equals a selector.
pub open spec fn index_selected(selectors: Seq<String>, pos: nat) -> bool {
    selectors.len() == 0 || exists|k: int| 0 <= k < selectors.len() && #[trigger] selectors[k]@ == decimal_text(pos)
}

/// The entries whose positions the selectors choose, in order.
pub open spec fn selected(entries: Seq<i64>, selectors: Seq<String>) -> Seq<i64>
    decreases entries.len(),
{
    if entries.len() == 0 {
        Seq::empty()
    } else {
        let prev = selected(entries.drop_last(), selectors);
        if index_selected(selectors, (entries.len() - 1) as nat) {
            prev.push(entries.last())
        } else {
            prev
        }
    }
}

/// The entry at a position, if there is one.
pub open spec fn entry_at(entries: Seq<i64>, number: int) -> Option<i64> {
    if 0 <= number < entries.len() {
        Some(entries[number])
    } else {
        None
    }
}

/// The copies that bring back the files found at `walked` inside `dir`, in
/// walk order, as (stored file, original place) pairs.
pub open spec fn restore_plan(dir: Seq<char>, walked: Seq<String>) -> Seq<(Seq<char>, Seq<char>)>
    decreases walked.len(),
{
    if walked.len() == 0 {
        Seq::empty()
    } else {
        let prev = restore_plan(dir, walked.drop_last());
        match restore_target(dir, walked.last()@) {
            Some(t) => prev.push((walked.last()@, t)),
            None => prev,
        }
    }
}

/// How many names a listing shows of one entry.
pub const SHOWN_FILES: usize = 4;

/// The file names a listing shows for an entry whose files were walked in
/// this order: the base names of the first few.
pub open spec fn shown_files(walked: Seq<String>) -> Seq<Seq<char>> {
    let n = if walked.len() < SHOWN_FILES { walked.len() } else { SHOWN_FILES as nat };
    walked.subrange(0, n as int).map_values(|w: String| base_name(w@))
}

/// Why an operation did not take place.
#[derive(PartialEq, Eq, Structural, Debug, Clone, Copy)]
pub enum StashError {
    /// No stash entry has the given index.
    NotFound,
    /// A stash input does not exist or has no path from the filesystem root.
    InvalidInput,
    /// The filesystem refused a read, copy, creation or removal.
    IoFailure,
}

/// The engine, bound to one archive root.
pub struct StashIt {
    pub path: String,
}

/// What a listing shows of one stash entry.
#[derive(Clone)]
pub struct Stash {
    pub stash_dir_name: i64,
    pub files: Vec<String>,
}

/// One file to copy.
#[derive(Clone)]
pub struct FileCopy {
    pub source: String,
    pub target: String,
}

/// The work of one stash: create `entry`, copy each file in order (on any
/// failure remove `entry` again), then delete each path in `remove`.
pub struct StashPlan {
    pub timestamp: i64,
    pub entry: String,
    pub copies: Vec<FileCopy>,
    pub remove: Vec<String>,
}

pub open spec fn copy_view(c: FileCopy) -> (Seq<char>, Seq<char>) {
    (c.source@, c.target@)
}

/// The plan that stashing `files` at time `now` from `cwd` calls for.
pub open spec fn stash_plan_ok(root: Seq<char>, now: i64, cwd: Seq<char>, files: Seq<String>, keep: bool, plan: StashPlan) -> bool {
    &&& plan.timestamp == now
    &&& plan.entry@ == entry_dir(root, now)
    &&& plan.copies@.len() == files.len()
    &&& forall|i: int| 0 <= i < files.len() ==> (#[trigger] plan.copies@[i]).source@ == files[i]@
        && plan.copies@[i].target@ == stash_target(root, now, cwd, files[i]@)
    &&& plan.remove@ == (if keep { Seq::<String>::empty() } else { files })
}

/// Whether every input has a path from the filesystem root.
pub open spec fn all_rooted(cwd: Seq<char>, files: Seq<String>) -> bool {
    forall|i: int| 0 <= i < files.len() ==> is_rooted(absolute_path(cwd, #[trigger] files[i]@))
}

impl Default for StashIt {
    fn default() -> (r: Self)
        ensures
            r.path@ == default_archive_path(),
    {
        StashIt { path: StashConfig::default().path }
    }
}

/// Relies on dirs::home_dir: the current user's home directory, where one
/// is known and its path is valid text.
#[verifier::external_body]
fn home_directory() -> (r: Option<String>) {
    match dirs::home_dir() {
        Some(p) => p.into_os_string().into_string().ok(),
        None => None,
    }
}

/// Relies on chrono's Local::now and DateTime::timestamp: the current time
/// in whole seconds since the Unix epoch.
#[verifier::external_body]
fn current_timestamp() -> (r: i64) {
    chrono::Local::now().timestamp()
}

/// Decimal text of a position, then comparison with each selector.
pub fn index_matches(selectors: &Vec<String>, pos: usize) -> (r: bool)
    ensures
        r == index_selected(selectors@, pos as nat),
{
    if selectors.len() == 0 {
        return true;
    }
    let mut text = String::new();
    push_decimal(&mut text, pos as u64);
    assert(text@ =~= decimal_text(pos as nat));
    let mut k: usize = 0;
    while k < selectors.len()
        invariant
            k <= selectors@.len(),
            text@ == decimal_text(pos as nat),
            forall|j: int| 0 <= j < k ==> selectors@[j]@ != decimal_text(pos as nat),
        decreases selectors@.len() - k,
    {
        if selectors[k] == text {
            return true;
        }
        k = k + 1;
    }
    false
}

impl Stash {
    /// The record of entry `stash_dir_name` whose files were walked in the
    /// order given: their base names, no more than `SHOWN_FILES` of them.
    pub fn from_walk(stash_dir_name: i64, walked: &Vec<String>) -> (r: Stash)
        ensures
            r.stash_dir_name == stash_dir_name,
            r.files@.map_values(|f: String| f@) == shown_files(walked@),
            r.files@.len() <= SHOWN_FILES,
    {
        let mut files: Vec<String> = Vec::new();
        let mut i: usize = 0;
        while i < walked.len() && i < SHOWN_FILES
            invariant
                i <= walked@.len(),
                i <= SHOWN_FILES,
                files@.len() == i,
                forall|j: int| 0 <= j < i ==> (#[trigger] files@[j])@ == base_name(walked@[j]@),
            decreases walked@.len() - i,
        {
            let b = base_name_of(walked[i].as_str());
            files.push(b);
            i = i + 1;
        }
        assert(files@.map_values(|f: String| f@) =~= shown_files(walked@));
        Stash { stash_dir_name, files }
    }
}

impl StashIt {
    /// The engine for a configuration, with the home directory given.
    pub fn from_config_and_home(cfg: Option<StashConfig>, home: Option<String>) -> (r: StashIt)
        ensures
            r.path@ == archive_root(configured_path(cfg), text_of(home)),
    {
        let ghost cfg_view = configured_path(cfg);
        let path = match cfg {
            Some(c) => c.path,
            None => StashConfig::default().path,
        };
        assert(path@ == cfg_view);
        let n = path.unicode_len();
        if n > 0 && path.as_str().get_char(0) == '~' && (n == 1 || path.as_str().get_char(1) == '/') {
            let h = match home {
                Some(h) => h,
                None => String::from_str("/tmp/"),
            };
            let rest = strip_root_of(path.as_str().substring_char(1, n));
            assert(path@.subrange(1, n as int) =~= path@.drop_first());
            StashIt { path: join(h.as_str(), rest.as_str()) }
        } else {
            StashIt { path }
        }
    }

    /// The engine for a configuration (the default one where `None`), with
    /// `~` standing for the current user's home directory.
    pub fn from_config(cfg: Option<StashConfig>) -> (r: StashIt)
        ensures
            exists|home: Option<Seq<char>>| r.path@ == archive_root(configured_path(cfg), home),
    {
        let home = home_directory();
        let ghost h = text_of(home);
        let r = StashIt::from_config_and_home(cfg, home);
        assert(r.path@ == archive_root(configured_path(cfg), h));
        r
    }

    /// The directory of the entry with timestamp `t`.
    pub fn entry_path(&self, t: i64) -> (r: String)
        ensures
            r@ == entry_dir(self.path@, t),
    {
        let name = i64_text(t);
        join(self.path.as_str(), name.as_str())
    }

    /// The timestamps of the entries that a listing shows, newest first:
    /// those whose index a selector names, or all where `indexes` is empty.
    /// `names` are the names of the archive root's children; an archive root
    /// that is missing or cannot be read has none.
    pub fn list(&self, names: &Vec<String>, indexes: &Vec<String>) -> (r: Vec<i64>)
        ensures
            r@ == selected(stash_entries(names@), indexes@),
    {
        let entries = get_stash_list(names);
        let mut r: Vec<i64> = Vec::new();
        let mut i: usize = 0;
        while i < entries.len()
            invariant
                i <= entries@.len(),
                r@ == selected(entries@.subrange(0, i as int), indexes@),
            decreases entries@.len() - i,
        {
            proof {
                assert(entries@.subrange(0, i + 1).drop_last() =~= entries@.subrange(0, i as int));
            }
            if index_matches(indexes, i) {
                r.push(entries[i]);
            }
            i = i + 1;
        }
        assert(entries@.subrange(0, i as int) =~= entries@);
        r
    }

    /// The timestamp of the entry at index `number`, if there is one.
    pub fn get_stash_path_by_index(&self, names: &Vec<String>, number: i32) -> (r: Option<i64>)
        ensures
            r == entry_at(stash_entries(names@), number as int),
    {
        let entries = get_stash_list(names);
        if number >= 0 && (number as usize) < entries.len() {
            Some(entries[number as usize])
        } else {
            None
        }
    }

    /// The directory to delete for removing the entry at index `number`.
    pub fn remove(&self, names: &Vec<String>, number: i32) -> (r: Result<String, StashError>)
        ensures
            match entry_at(stash_entries(names@), number as int) {
                Some(t) => r matches Ok(d) && d@ == entry_dir(self.path@, t),
                None => r == Err::<String, StashError>(StashError::NotFound),
            },
    {
        match self.get_stash_path_by_index(names, number) {
            Some(t) => Ok(self.entry_path(t)),
            None => Err(StashError::NotFound),
        }
    }

    /// The directory of the entry at index `number`, whose files a pop
    /// restores (see `restore`) before it deletes the directory.
    pub fn pop(&self, names: &Vec<String>, number: i32) -> (r: Result<String, StashError>)
        ensures
            match entry_at(stash_entries(names@), number as int) {
                Some(t) => r matches Ok(d) && d@ == entry_dir(self.path@, t),
                None => r == Err::<String, StashError>(StashError::NotFound),
            },
    {
        match self.get_stash_path_by_index(names, number) {
            Some(t) => Ok(self.entry_path(t)),
            None => Err(StashError::NotFound),
        }
    }

    /// The copies that restore every file found at `walked` inside the
    /// entry directory `entry`, each to its original absolute path. No file
    /// is left out for the number of them.
    pub fn restore(&self, entry: &str, walked: &Vec<String>) -> (r: Vec<FileCopy>)
        ensures
            r@.map_values(|c: FileCopy| copy_view(c)) == restore_plan(entry@, walked@),
    {
        let mut r: Vec<FileCopy> = Vec::new();
        let mut i: usize = 0;
        while i < walked.len()
            invariant
                i <= walked@.len(),
                r@.map_values(|c: FileCopy| copy_view(c)) =~= restore_plan(entry@, walked@.subrange(0, i as int)),
            decreases walked@.len() - i,
        {
            proof {
                assert(walked@.subrange(0, i + 1).drop_last() =~= walked@.subrange(0, i as int));
            }
            match restore_path(entry, walked[i].as_str()) {
                Some(t) => {
                    r.push(FileCopy { source: walked[i].clone(), target: t });
                },
                None => {},
            }
            i = i + 1;
        }
        assert(walked@.subrange(0, i as int) =~= walked@);
        r
    }

    /// The plan for stashing `files` at time `now` from the working
    /// directory `cwd`; `InvalidInput` where an input has no path from the
    /// filesystem root.
    pub fn stash_at(&self, now: i64, cwd: &str, files: &Vec<String>, keep: bool) -> (r: Result<StashPlan, StashError>)
        ensures
            r is Ok <==> all_rooted(cwd@, files@),
            r matches Ok(plan) ==> stash_plan_ok(self.path@, now, cwd@, files@, keep, plan),
            r matches Err(e) ==> e == StashError::InvalidInput,
    {
        let entry = self.entry_path(now);
        let mut copies: Vec<FileCopy> = Vec::new();
        let mut remove: Vec<String> = Vec::new();
        let mut i: usize = 0;
        while i < files.len()
            invariant
                i <= files@.len(),
                entry@ == entry_dir(self.path@, now),
                copies@.len() == i,
                forall|j: int| 0 <= j < i ==> is_rooted(absolute_path(cwd@, #[trigger] files@[j]@)),
                forall|j: int| 0 <= j < i ==> (#[trigger] copies@[j]).source@ == files@[j]@
                    && copies@[j].target@ == stash_target(self.path@, now, cwd@, files@[j]@),
                remove@ == (if keep { Seq::<String>::empty() } else { files@.subrange(0, i as int) }),
            decreases files@.len() - i,
        {
            let abs = join(cwd, files[i].as_str());
            if !(abs.unicode_len() > 0 && abs.as_str().get_char(0) == '/') {
                return Err(StashError::InvalidInput);
            }
            let rel = strip_root_of(abs.as_str());
            let target = join(entry.as_str(), rel.as_str());
            copies.push(FileCopy { source: files[i].clone(), target });
            if !keep {
                remove.push(files[i].clone());
                assert(remove@ =~= files@.subrange(0, i + 1));
            }
            i = i + 1;
        }
        assert(files@.subrange(0, i as int) =~= files@);
        Ok(StashPlan { timestamp: now, entry, copies, remove })
    }

    /// The plan for stashing `files` now, from the working directory `cwd`.
    pub fn stash(&self, cwd: &str, files: &Vec<String>, keep: bool) -> (r: Result<StashPlan, StashError>)
        ensures
            r is Ok <==> all_rooted(cwd@, files@),
            r matches Ok(plan) ==> stash_plan_ok(self.path@, plan.timestamp, cwd@, files@, keep, plan),
            r matches Err(e) ==> e == StashError::InvalidInput,
    {
        let now = current_timestamp();
        self.stash_at(now, cwd, files, keep)
    }
}

} // verus!
