//! The reconciliation engine.
//!
//! `SkillSync` owns the source root and the ordered destinations. It does no
//! I/O: it is handed what a walk of the source (or of the destinations)
//! found, and answers with the writes and removals that bring the
//! destinations in line, in the order in which they are to be carried out.
//! The caller performs them one after the other and stops at the first
//! failure: a full sync is fail-fast, as a failed write leaves the rest of
//! the walk undone.

use vstd::prelude::*;
use crate::destination::{Destination, DestinationType};
use crate::paths::{
    copy_path, flat_name, flat_path, is_prefix, is_skill_file, is_skill_path, join_path,
    path_view, relative_to, same_path, skill_source_of, split_path, stem_of_toml, toml_stem,
    components, opt_str_view,
};
use crate::transform::{
    description_or_default, frontmatter, generate_toml, parse_frontmatter, toml_doc,
};

verus! {

/// An entry that a walk found, with its path below the walked directory.
/// A file carries its text; a directory carries none.
#[derive(Debug)]
pub struct SourceEntry {
    pub path: Vec<String>,
    pub content: Option<String>,
}

/// One step of a plan, addressed to a destination by its index.
#[derive(Debug)]
pub enum SyncAction {
    /// Write `content` at `path` below the destination's base, creating the
    /// directories above it; what was there is overwritten.
    Write { dest: usize, path: Vec<String>, content: String },
    /// Remove `path` below the destination's base, with everything under it.
    Remove { dest: usize, path: Vec<String> },
}

/// A step of a plan, as a value.
pub enum Step {
    Write(nat, Seq<Seq<char>>, Seq<char>),
    Remove(nat, Seq<Seq<char>>),
}

impl View for SyncAction {
    type V = Step;

    open spec fn view(&self) -> Step {
        match self {
            SyncAction::Write { dest, path, content } => Step::Write(
                *dest as nat,
                path_view(path@),
                content@,
            ),
            SyncAction::Remove { dest, path } => Step::Remove(*dest as nat, path_view(path@)),
        }
    }
}

pub open spec fn steps_view(v: Seq<SyncAction>) -> Seq<Step> {
    v.map_values(|a: SyncAction| a@)
}

/// A walked entry as a value: its path and, for a file, its text.
pub type EntryView = (Seq<Seq<char>>, Option<Seq<char>>);

pub open spec fn entries_view(v: Seq<SourceEntry>) -> Seq<EntryView> {
    v.map_values(|e: SourceEntry| (path_view(e.path@), opt_str_view(e.content)))
}

pub open spec fn listings_view(v: Seq<Vec<Vec<String>>>) -> Seq<Seq<Seq<Seq<char>>>> {
    v.map_values(|l: Vec<Vec<String>>| l@.map_values(|p: Vec<String>| path_view(p@)))
}

/// The command file a skill document becomes.
pub open spec fn rendered(content: Seq<char>) -> Seq<char> {
    toml_doc(description_or_default(frontmatter(content).0), frontmatter(content).1)
}

/// What writing the source file `rel` asks of destination `i` of kind `kind`.
pub open spec fn dest_write_steps(
    kind: DestinationType,
    i: nat,
    rel: Seq<Seq<char>>,
    content: Seq<char>,
) -> Seq<Step> {
    match kind {
        DestinationType::ClaudeStyle => seq![Step::Write(i, rel, content)],
        DestinationType::GeminiToml => if is_skill_file(rel) {
            seq![Step::Write(i, flat_path(rel), rendered(content))]
        } else {
            seq![]
        },
    }
}

/// What writing the source file `rel` asks of the first `k` destinations.
pub open spec fn file_write_steps(
    ds: Seq<Destination>,
    k: int,
    rel: Seq<Seq<char>>,
    content: Seq<char>,
) -> Seq<Step>
    decreases k,
{
    if k <= 0 {
        seq![]
    } else {
        file_write_steps(ds, k - 1, rel, content) + dest_write_steps(
            ds[k - 1].dest_type,
            (k - 1) as nat,
            rel,
            content,
        )
    }
}

/// What pushing the first `m` entries of a walk of `base` asks.
pub open spec fn walk_steps(
    ds: Seq<Destination>,
    base: Seq<Seq<char>>,
    es: Seq<EntryView>,
    m: int,
) -> Seq<Step>
    decreases m,
{
    if m <= 0 {
        seq![]
    } else {
        walk_steps(ds, base, es, m - 1) + match es[m - 1].1 {
            Some(c) => file_write_steps(ds, ds.len() as int, base + es[m - 1].0, c),
            None => seq![],
        }
    }
}

/// What deleting the source path `rel` asks of destination `i`.
pub open spec fn dest_remove_steps(kind: DestinationType, i: nat, rel: Seq<Seq<char>>) -> Seq<
    Step,
> {
    match kind {
        DestinationType::ClaudeStyle => seq![Step::Remove(i, rel)],
        DestinationType::GeminiToml => if is_skill_file(rel) {
            seq![Step::Remove(i, flat_path(rel))]
        } else {
            seq![]
        },
    }
}

pub open spec fn file_remove_steps(ds: Seq<Destination>, k: int, rel: Seq<Seq<char>>) -> Seq<Step>
    decreases k,
{
    if k <= 0 {
        seq![]
    } else {
        file_remove_steps(ds, k - 1, rel) + dest_remove_steps(
            ds[k - 1].dest_type,
            (k - 1) as nat,
            rel,
        )
    }
}

/// Whether the source holds `p`: the root, or an entry that a full walk found.
pub open spec fn source_has(es: Seq<EntryView>, p: Seq<Seq<char>>) -> bool {
    p.len() == 0 || exists|j: int| 0 <= j < es.len() && (#[trigger] es[j]).0 == p
}

/// A destination entry with no source counterpart, reached by a sweep: for
/// a mirror, every directory above it has a counterpart; for a flat
/// destination, it is a top-level `<stem>.toml` with no `<stem>/SKILL.md`.
pub open spec fn is_orphan(kind: DestinationType, es: Seq<EntryView>, p: Seq<Seq<char>>) -> bool {
    match kind {
        DestinationType::ClaudeStyle => !source_has(es, p) && forall|m: int|
            1 <= m < p.len() ==> source_has(es, #[trigger] p.take(m)),
        DestinationType::GeminiToml => p.len() == 1 && toml_stem(p[0]) is Some && !source_has(
            es,
            skill_source_of(toml_stem(p[0])->0),
        ),
    }
}

/// The removals of a sweep of destination `i` over the first `m` listed paths.
pub open spec fn dest_sweep_steps(
    kind: DestinationType,
    i: nat,
    es: Seq<EntryView>,
    listing: Seq<Seq<Seq<char>>>,
    m: int,
) -> Seq<Step>
    decreases m,
{
    if m <= 0 {
        seq![]
    } else {
        dest_sweep_steps(kind, i, es, listing, m - 1) + if is_orphan(kind, es, listing[m - 1]) {
            seq![Step::Remove(i, listing[m - 1])]
        } else {
            seq![]
        }
    }
}

/// The removals of a sweep of the first `k` destinations.
pub open spec fn sweep_steps(
    ds: Seq<Destination>,
    es: Seq<EntryView>,
    listings: Seq<Seq<Seq<Seq<char>>>>,
    k: int,
) -> Seq<Step>
    decreases k,
{
    if k <= 0 {
        seq![]
    } else {
        sweep_steps(ds, es, listings, k - 1) + dest_sweep_steps(
            ds[k - 1].dest_type,
            (k - 1) as nat,
            es,
            listings[k - 1],
            listings[k - 1].len() as int,
        )
    }
}

/// What a notification for `path` asks: nothing outside the source root;
/// for a path that exists, a push of what a walk of it found; for one that
/// does not, the removal of what stands for it.
pub open spec fn event_steps(
    ds: Seq<Destination>,
    root: Seq<Seq<char>>,
    path: Seq<Seq<char>>,
    found: Option<Seq<EntryView>>,
) -> Seq<Step> {
    if !is_prefix(root, path) {
        seq![]
    } else {
        let rel = path.skip(root.len() as int);
        match found {
            Some(es) => walk_steps(ds, rel, es, es.len() as int),
            None => file_remove_steps(ds, ds.len() as int, rel),
        }
    }
}

/// The engine: a source root and the destinations it is mirrored into.
pub struct SkillSync {
    source: String,
    destinations: Vec<Destination>,
}

impl SkillSync {
    pub closed spec fn source_view(&self) -> Seq<char> {
        self.source@
    }

    pub closed spec fn destinations_view(&self) -> Seq<Destination> {
        self.destinations@
    }

    pub fn new(source: String, destinations: Vec<Destination>) -> (r: Self)
        ensures
            r.source_view() == source@,
            r.destinations_view() == destinations@,
    {
        SkillSync { source, destinations }
    }

    pub fn source(&self) -> (r: &String)
        ensures
            r@ == self.source_view(),
    {
        &self.source
    }

    pub fn destinations(&self) -> (r: &Vec<Destination>)
        ensures
            r@ == self.destinations_view(),
    {
        &self.destinations
    }

    /// Appends what writing the source file `rel` asks of every destination.
    fn push_file(&self, rel: &Vec<String>, content: &String, out: &mut Vec<SyncAction>)
        ensures
            steps_view(final(out)@) == steps_view(old(out)@) + file_write_steps(
                self.destinations@,
                self.destinations@.len() as int,
                path_view(rel@),
                content@,
            ),
    {
        let ghost ds = self.destinations@;
        let ghost r = path_view(rel@);
        let mut k: usize = 0;
        assert(steps_view(out@) =~= steps_view(old(out)@) + file_write_steps(ds, 0, r, content@));
        while k < self.destinations.len()
            invariant
                ds == self.destinations@,
                r == path_view(rel@),
                k <= ds.len(),
                steps_view(out@) == steps_view(old(out)@) + file_write_steps(
                    ds,
                    k as int,
                    r,
                    content@,
                ),
            decreases ds.len() - k,
        {
            let ghost before = out@;
            match self.destinations[k].dest_type {
                DestinationType::ClaudeStyle => {
                    let path = copy_path(rel);
                    out.push(SyncAction::Write { dest: k, path, content: content.clone() });
                },
                DestinationType::GeminiToml => {
                    if is_skill_path(rel) {
                        let (fm, body) = parse_frontmatter(content.as_str());
                        let doc = generate_toml(fm.description, body.as_str());
                        let mut path: Vec<String> = Vec::new();
                        path.push(flat_name(rel));
                        assert(path_view(path@) =~= flat_path(r));
                        out.push(SyncAction::Write { dest: k, path, content: doc });
                    }
                },
            }
            assert(steps_view(out@) =~= steps_view(before) + dest_write_steps(
                ds[k as int].dest_type,
                k as nat,
                r,
                content@,
            ));
            assert(steps_view(out@) =~= steps_view(old(out)@) + file_write_steps(
                ds,
                k + 1,
                r,
                content@,
            ));
            k = k + 1;
        }
    }

    /// Appends what pushing every file of a walk of `base` asks.
    fn push_walk(&self, base: &Vec<String>, entries: &Vec<SourceEntry>, out: &mut Vec<SyncAction>)
        ensures
            steps_view(final(out)@) == steps_view(old(out)@) + walk_steps(
                self.destinations@,
                path_view(base@),
                entries_view(entries@),
                entries@.len() as int,
            ),
    {
        let ghost ds = self.destinations@;
        let ghost es = entries_view(entries@);
        let mut m: usize = 0;
        assert(steps_view(out@) =~= steps_view(old(out)@) + walk_steps(
            ds,
            path_view(base@),
            es,
            0,
        ));
        while m < entries.len()
            invariant
                ds == self.destinations@,
                es == entries_view(entries@),
                m <= entries.len(),
                steps_view(out@) == steps_view(old(out)@) + walk_steps(
                    ds,
                    path_view(base@),
                    es,
                    m as int,
                ),
            decreases entries.len() - m,
        {
            let ghost before = out@;
            match &entries[m].content {
                Some(c) => {
                    let rel = join_path(base, &entries[m].path);
                    self.push_file(&rel, c, out);
                },
                None => {},
            }
            assert(steps_view(out@) =~= steps_view(old(out)@) + walk_steps(
                ds,
                path_view(base@),
                es,
                m + 1,
            ));
            m = m + 1;
        }
    }

    /// The writes of a full sync: every file that a walk of the source root
    /// found, pushed to every destination in turn. The caller walks only a
    /// root that exists; when it does not, a full sync does nothing.
    pub fn initial_sync(&self, entries: &Vec<SourceEntry>) -> (r: Vec<SyncAction>)
        ensures
            steps_view(r@) == walk_steps(
                self.destinations_view(),
                seq![],
                entries_view(entries@),
                entries@.len() as int,
            ),
    {
        let mut out: Vec<SyncAction> = Vec::new();
        let root: Vec<String> = Vec::new();
        assert(path_view(root@) =~= seq![]);
        self.push_walk(&root, entries, &mut out);
        assert(steps_view(out@) =~= walk_steps(
            self.destinations_view(),
            seq![],
            entries_view(entries@),
            entries@.len() as int,
        ));
        out
    }

    /// The removals of the orphan sweep that ends a full sync. `entries` is
    /// what the walk of the source root found; `listings[i]` holds the paths
    /// found below the base of destination `i` once the writes were done. A
    /// mirror loses every entry with no source counterpart whose directories
    /// all have one (with all that lies under it); a flat destination loses
    /// every top-level `<stem>.toml` without a `<stem>/SKILL.md` in the source.
    pub fn cleanup_orphans(&self, entries: &Vec<SourceEntry>, listings: &Vec<Vec<Vec<String>>>) -> (r:
        Vec<SyncAction>)
        requires
            listings@.len() == self.destinations_view().len(),
        ensures
            steps_view(r@) == sweep_steps(
                self.destinations_view(),
                entries_view(entries@),
                listings_view(listings@),
                self.destinations_view().len() as int,
            ),
    {
        let ghost ds = self.destinations@;
        let ghost es = entries_view(entries@);
        let ghost ls = listings_view(listings@);
        let mut out: Vec<SyncAction> = Vec::new();
        let mut k: usize = 0;
        assert(steps_view(out@) =~= sweep_steps(ds, es, ls, 0));
        while k < self.destinations.len()
            invariant
                ds == self.destinations@,
                es == entries_view(entries@),
                ls == listings_view(listings@),
                listings@.len() == ds.len(),
                k <= ds.len(),
                steps_view(out@) == sweep_steps(ds, es, ls, k as int),
            decreases ds.len() - k,
        {
            let kind = self.destinations[k].dest_type;
            let listing = &listings[k];
            let ghost lv = ls[k as int];
            assert(lv =~= listing@.map_values(|p: Vec<String>| path_view(p@)));
            let ghost start = out@;
            let mut m: usize = 0;
            assert(steps_view(out@) =~= steps_view(start) + dest_sweep_steps(kind, k as nat, es, lv, 0));
            while m < listing.len()
                invariant
                    es == entries_view(entries@),
                    lv == listing@.map_values(|p: Vec<String>| path_view(p@)),
                    m <= listing.len(),
                    steps_view(out@) == steps_view(start) + dest_sweep_steps(
                        kind,
                        k as nat,
                        es,
                        lv,
                        m as int,
                    ),
                decreases listing.len() - m,
            {
                let ghost before = out@;
                assert(lv[m as int] == path_view(listing@[m as int]@));
                if orphan(kind, entries, &listing[m]) {
                    let path = copy_path(&listing[m]);
                    out.push(SyncAction::Remove { dest: k, path });
                    assert(steps_view(out@) =~= steps_view(before).push(
                        Step::Remove(k as nat, lv[m as int]),
                    ));
                } else {
                    assert(steps_view(out@) =~= steps_view(before));
                }
                assert(dest_sweep_steps(kind, k as nat, es, lv, m + 1) == dest_sweep_steps(
                    kind,
                    k as nat,
                    es,
                    lv,
                    m as int,
                ) + if is_orphan(kind, es, lv[m as int]) {
                    seq![Step::Remove(k as nat, lv[m as int])]
                } else {
                    seq![]
                });
                assert(steps_view(out@) =~= steps_view(start) + dest_sweep_steps(
                    kind,
                    k as nat,
                    es,
                    lv,
                    m + 1,
                ));
                m = m + 1;
            }
            assert(steps_view(out@) =~= sweep_steps(ds, es, ls, k + 1));
            k = k + 1;
        }
        out
    }

    /// What a notification for the absolute path `path` asks. `found` is what
    /// a walk of the path found when it exists (a file is found as one entry
    /// with an empty path), and `None` when it no longer exists.
    pub fn handle_event(&self, path: &str, found: &Option<Vec<SourceEntry>>) -> (r: Vec<SyncAction>)
        ensures
            steps_view(r@) == event_steps(
                self.destinations_view(),
                components(self.source_view()),
                components(path@),
                match found {
                    Some(es) => Some(entries_view(es@)),
                    None => None,
                },
            ),
    {
        let root = split_path(self.source.as_str());
        let full = split_path(path);
        let mut out: Vec<SyncAction> = Vec::new();
        match relative_to(&root, &full) {
            None => {
                assert(steps_view(out@) =~= seq![]);
            },
            Some(rel) => match found {
                Some(es) => {
                    self.push_walk(&rel, es, &mut out);
                    assert(steps_view(out@) =~= steps_view(Seq::<SyncAction>::empty()) + walk_steps(
                        self.destinations@,
                        path_view(rel@),
                        entries_view(es@),
                        es@.len() as int,
                    ));
                },
                None => {
                    self.push_removal(&rel, &mut out);
                    assert(steps_view(out@) =~= steps_view(Seq::<SyncAction>::empty())
                        + file_remove_steps(
                        self.destinations@,
                        self.destinations@.len() as int,
                        path_view(rel@),
                    ));
                },
            },
        }
        out
    }

    /// Appends what deleting the source path `rel` asks of every destination.
    fn push_removal(&self, rel: &Vec<String>, out: &mut Vec<SyncAction>)
        ensures
            steps_view(final(out)@) == steps_view(old(out)@) + file_remove_steps(
                self.destinations@,
                self.destinations@.len() as int,
                path_view(rel@),
            ),
    {
        let ghost ds = self.destinations@;
        let ghost r = path_view(rel@);
        let mut k: usize = 0;
        assert(steps_view(out@) =~= steps_view(old(out)@) + file_remove_steps(ds, 0, r));
        while k < self.destinations.len()
            invariant
                ds == self.destinations@,
                r == path_view(rel@),
                k <= ds.len(),
                steps_view(out@) == steps_view(old(out)@) + file_remove_steps(ds, k as int, r),
            decreases ds.len() - k,
        {
            let ghost before = out@;
            match self.destinations[k].dest_type {
                DestinationType::ClaudeStyle => {
                    let path = copy_path(rel);
                    out.push(SyncAction::Remove { dest: k, path });
                },
                DestinationType::GeminiToml => {
                    if is_skill_path(rel) {
                        let mut path: Vec<String> = Vec::new();
                        path.push(flat_name(rel));
                        assert(path_view(path@) =~= flat_path(r));
                        out.push(SyncAction::Remove { dest: k, path });
                    }
                },
            }
            assert(steps_view(out@) =~= steps_view(before) + dest_remove_steps(
                ds[k as int].dest_type,
                k as nat,
                r,
            ));
            assert(steps_view(out@) =~= steps_view(old(out)@) + file_remove_steps(ds, k + 1, r));
            k = k + 1;
        }
    }
}

/// Whether the source holds `p`.
fn source_holds(entries: &Vec<SourceEntry>, p: &Vec<String>) -> (r: bool)
    ensures
        r == source_has(entries_view(entries@), path_view(p@)),
{
    let ghost es = entries_view(entries@);
    if p.len() == 0 {
        return true;
    }
    let mut j: usize = 0;
    while j < entries.len()
        invariant
            es == entries_view(entries@),
            p.len() > 0,
            j <= entries.len(),
            forall|i: int| 0 <= i < j ==> es[i].0 != path_view(p@),
        decreases entries.len() - j,
    {
        if same_path(&entries[j].path, p) {
            assert(es[j as int].0 == path_view(p@));
            return true;
        }
        j = j + 1;
    }
    false
}

/// Whether the listed path `p` of a destination of kind `kind` is an orphan.
fn orphan(kind: DestinationType, entries: &Vec<SourceEntry>, p: &Vec<String>) -> (r: bool)
    ensures
        r == is_orphan(kind, entries_view(entries@), path_view(p@)),
{
    let ghost es = entries_view(entries@);
    let ghost pv = path_view(p@);
    match kind {
        DestinationType::ClaudeStyle => {
            if source_holds(entries, p) {
                return false;
            }
            let mut prefix: Vec<String> = Vec::new();
            if p.len() == 0 {
                return true;
            }
            prefix.push(p[0].clone());
            let mut m: usize = 1;
            assert(path_view(prefix@) =~= pv.take(1));
            while m < p.len()
                invariant
                    es == entries_view(entries@),
                    pv == path_view(p@),
                    1 <= m <= p.len(),
                    path_view(prefix@) == pv.take(m as int),
                    forall|i: int| 1 <= i < m ==> source_has(es, #[trigger] pv.take(i)),
                decreases p.len() - m,
            {
                if !source_holds(entries, &prefix) {
                    return false;
                }
                let ghost before = prefix@;
                prefix.push(p[m].clone());
                proof {
                    assert forall|i: int| 0 <= i < m + 1 implies path_view(prefix@)[i] == pv.take(m + 1)[i] by {
                        if i < m {
                            assert(prefix@[i] == before[i]);
                            assert(path_view(before)[i] == pv.take(m as int)[i]);
                        }
                    }
                    assert(path_view(prefix@) =~= pv.take(m + 1));
                }
                m = m + 1;
            }
            true
        },
        DestinationType::GeminiToml => {
            if p.len() != 1 {
                return false;
            }
            match stem_of_toml(&p[0]) {
                None => false,
                Some(stem) => {
                    let mut src: Vec<String> = Vec::new();
                    src.push(stem);
                    src.push(String::from_str("SKILL.md"));
                    assert(path_view(src@) =~= skill_source_of(toml_stem(pv[0])->0));
                    !source_holds(entries, &src)
                },
            }
        },
    }
}

} // verus!