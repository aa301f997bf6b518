//! The material library: its tabs, the catalogs it has loaded, the downloads
//! that run, and the local collection.
//!
//! The panel decides; the caller downloads and stores. Every download
//! belongs to a job, which the panel names.

use vstd::prelude::*;
use crate::json::strings_view;
use crate::pbr_catalog::{
    catalog_of, categories_view, collect_categories, collect_texts, ambient_catalog, entries_view,
    parse_ambientcg_catalog, parse_polyhaven_catalog, poly_catalog, text_set, RemotePbrEntry,
    RemoteView,
};
use crate::json::parsed_json;
use crate::pbr_import::{
    add_local, ambient_maps, ambientcg_map_urls, collect_textures, copy_textures, done_place,
    done_view, download_view, import_after, import_files, local_entry, locals_view,
    make_local_entry, map_file, maps_view, maybe_text, metalness, poly_maps_outcome,
    polyhaven_map_urls_from_files_json, progress_label, progress_of, real_done, remove_local,
    step_import, stored_textures, total_of, with_local, without_id, BaseColor, ImportJob,
    ImportStep, ImportView, LocalPbrEntry, LocalView, MapBytes, Progress, Textures, TexturesView,
    HALF_BITS,
};
use crate::scalar::{Scalar, ONE_BITS};
use crate::text::{contains, decimal, join, lowercased, occurs, push_decimal, same, to_lowercase};

verus! {

/// A tab of the panel.
#[derive(Clone, Copy, PartialEq, Eq, Structural, Debug)]
pub enum Tab {
    Sources,
    AmbientCg,
    PolyHaven,
    Local,
}

impl Tab {
    /// The name of the tab.
    pub fn label(self) -> (r: &'static str)
        ensures
            r@ == (match self {
                Tab::Sources => "Sources"@,
                Tab::AmbientCg => "ambientCG"@,
                Tab::PolyHaven => "Poly Haven"@,
                Tab::Local => "Local"@,
            }),
    {
        match self {
            Tab::Sources => "Sources",
            Tab::AmbientCg => "ambientCG",
            Tab::PolyHaven => "Poly Haven",
            Tab::Local => "Local",
        }
    }

    /// The name of the tab where there is little room.
    pub fn short_label(self) -> (r: &'static str)
        ensures
            r@ == (match self {
                Tab::Sources => "Src"@,
                Tab::AmbientCg => "aCG"@,
                Tab::PolyHaven => "PH"@,
                Tab::Local => "Loc"@,
            }),
    {
        match self {
            Tab::Sources => "Src",
            Tab::AmbientCg => "aCG",
            Tab::PolyHaven => "PH",
            Tab::Local => "Loc",
        }
    }
}

/// A catalog that can be browsed.
#[derive(Clone, Copy, PartialEq, Eq, Structural, Debug)]
pub enum Catalog {
    Ambient,
    Poly,
}

/// Where the ambientCG catalog is.
pub fn ambient_url() -> (r: &'static str)
    ensures
        r@
            == "https://ambientcg.com/api/v2/full_json?type=Material&sort=Popular&limit=60&include=previewData,labelData"@,
{
    "https://ambientcg.com/api/v2/full_json?type=Material&sort=Popular&limit=60&include=previewData,labelData"
}

/// Where the Poly Haven catalog is.
pub fn poly_url() -> (r: &'static str)
    ensures
        r@ == "https://api.polyhaven.com/assets?t=textures"@,
{
    "https://api.polyhaven.com/assets?t=textures"
}

/// A download, or a chain of them.
#[derive(Debug)]
pub enum Job {
    Catalog(Catalog),
    Thumb(String),
    Import(ImportJob),
}

/// What a job is.
pub enum JobView {
    Catalog(Catalog),
    Thumb(Seq<char>),
    Import(ImportView),
}

impl View for Job {
    type V = JobView;

    open spec fn view(&self) -> JobView {
        match *self {
            Job::Catalog(c) => JobView::Catalog(c),
            Job::Thumb(key) => JobView::Thumb(key@),
            Job::Import(j) => JobView::Import(j@),
        }
    }
}

/// What the jobs are.
pub open spec fn jobs_view(jobs: Seq<(u64, Job)>) -> Seq<(u64, JobView)> {
    Seq::new(jobs.len(), |i: int| (jobs[i].0, jobs[i].1@))
}

/// A material to put on the selected objects.
#[derive(Debug)]
pub struct Applied {
    pub base_color: Option<BaseColor>,
    pub roughness: Option<Scalar>,
    pub metallic: Option<Scalar>,
    pub textures: Textures,
    pub name: String,
}

/// What a material to put on the selected objects is.
pub struct AppliedView {
    pub base_color: Option<BaseColor>,
    pub roughness: Option<Scalar>,
    pub metallic: Option<Scalar>,
    pub textures: TexturesView,
    pub name: Seq<char>,
}

/// The material library.
#[derive(Debug)]
pub struct PbrLibraryPanel {
    tab: Tab,
    category_filter: String,
    local: Vec<LocalPbrEntry>,
    ambient_entries: Vec<RemotePbrEntry>,
    poly_entries: Vec<RemotePbrEntry>,
    ambient_loaded: bool,
    poly_loaded: bool,
    ambient_error: Option<String>,
    poly_error: Option<String>,
    jobs: Vec<(u64, Job)>,
    next_job: u64,
    status: Option<String>,
    pending_apply: Option<Applied>,
    categories: Vec<String>,
}

/// What a material library holds.
pub struct PanelView {
    pub tab: Tab,
    pub category_filter: Seq<char>,
    pub local: Seq<LocalView>,
    pub ambient_entries: Seq<RemoteView>,
    pub poly_entries: Seq<RemoteView>,
    pub ambient_loaded: bool,
    pub poly_loaded: bool,
    pub ambient_error: Option<Seq<char>>,
    pub poly_error: Option<Seq<char>>,
    pub jobs: Seq<(u64, JobView)>,
    pub next_job: u64,
    pub status: Option<Seq<char>>,
    pub pending_apply: Option<AppliedView>,
    pub categories: Seq<Seq<char>>,
}

/// What an optional material to apply is.
pub open spec fn maybe_applied(a: Option<Applied>) -> Option<AppliedView> {
    match a {
        Some(a) => Some(
            AppliedView {
                base_color: a.base_color,
                roughness: a.roughness,
                metallic: a.metallic,
                textures: a.textures@,
                name: a.name@,
            },
        ),
        None => None,
    }
}

impl View for PbrLibraryPanel {
    type V = PanelView;

    closed spec fn view(&self) -> PanelView {
        PanelView {
            tab: self.tab,
            category_filter: self.category_filter@,
            local: locals_view(self.local@),
            ambient_entries: entries_view(self.ambient_entries@),
            poly_entries: entries_view(self.poly_entries@),
            ambient_loaded: self.ambient_loaded,
            poly_loaded: self.poly_loaded,
            ambient_error: maybe_text(self.ambient_error),
            poly_error: maybe_text(self.poly_error),
            jobs: jobs_view(self.jobs@),
            next_job: self.next_job,
            status: maybe_text(self.status),
            pending_apply: maybe_applied(self.pending_apply),
            categories: strings_view(self.categories@),
        }
    }
}

/// A library that has loaded nothing yet.
pub open spec fn fresh_panel(local: Seq<LocalView>) -> PanelView {
    PanelView {
        tab: Tab::Sources,
        category_filter: ""@,
        local,
        ambient_entries: seq![],
        poly_entries: seq![],
        ambient_loaded: false,
        poly_loaded: false,
        ambient_error: None,
        poly_error: None,
        jobs: seq![],
        next_job: 0,
        status: None,
        pending_apply: None,
        categories: seq![],
    }
}

/// What came of a download.
#[derive(Debug)]
pub enum Polled {
    /// Nothing yet.
    Pending,
    Text(Result<String, String>),
    Bytes(Result<Vec<u8>, String>),
}

/// What the caller is to do for a job.
#[derive(Debug)]
pub enum Advance {
    Nothing,
    /// Download this as the next map of the import.
    Fetch { url: String },
    /// Keep these bytes as the picture `key`.
    KeepThumb { key: String, bytes: Vec<u8> },
    /// Store the maps of the import under these keys, then finish it.
    Store { keys: Vec<String> },
}

/// The place of the job among the first `n`.
pub open spec fn job_place(jobs: Seq<(u64, JobView)>, id: u64, n: nat) -> Option<int>
    decreases n,
{
    if n == 0 {
        None
    } else if job_place(jobs, id, (n - 1) as nat) is Some {
        job_place(jobs, id, (n - 1) as nat)
    } else if jobs[n - 1].0 == id {
        Some(n - 1)
    } else {
        None
    }
}

fn find_job(jobs: &Vec<(u64, Job)>, id: u64) -> (r: Option<usize>)
    ensures
        r matches Some(i) ==> job_place(jobs_view(jobs@), id, jobs@.len()) == Some(i as int) && i
            < jobs@.len(),
        r is None ==> job_place(jobs_view(jobs@), id, jobs@.len()) is None,
{
    let ghost all = jobs_view(jobs@);
    let mut found: Option<usize> = None;
    let mut n: usize = 0;
    while n < jobs.len()
        invariant
            n <= jobs@.len(),
            all == jobs_view(jobs@),
            found matches Some(i) ==> job_place(all, id, n as nat) == Some(i as int) && i < n,
            found is None ==> job_place(all, id, n as nat) is None,
        decreases jobs@.len() - n,
    {
        assert(all[n as int].0 == jobs@[n as int].0);
        if found.is_none() && jobs[n].0 == id {
            found = Some(n);
        }
        n += 1;
    }
    found
}

/// The library with a catalog that was read.
pub open spec fn catalog_loaded(v: PanelView, c: Catalog, entries: Seq<RemoteView>) -> PanelView {
    let categories = text_set(
        Seq::new(entries.len(), |i: int| entries[i].category),
        entries.len(),
    );
    match c {
        Catalog::Ambient => PanelView {
            categories,
            ambient_entries: entries,
            ambient_loaded: true,
            ambient_error: None,
            status: Some("ambientCG: "@ + decimal(entries.len()) + " materials"@),
            ..v
        },
        Catalog::Poly => PanelView {
            categories,
            poly_entries: entries,
            poly_loaded: true,
            poly_error: None,
            status: Some("Poly Haven: "@ + decimal(entries.len()) + " textures"@),
            ..v
        },
    }
}

/// The library with a catalog that could not be read or downloaded.
pub open spec fn catalog_failed(
    v: PanelView,
    c: Catalog,
    e: Seq<char>,
    downloaded: bool,
) -> PanelView {
    match c {
        Catalog::Ambient => PanelView {
            ambient_error: Some(e),
            status: Some(
                if downloaded {
                    "ambientCG catalog: "@ + e
                } else {
                    "ambientCG: "@ + e
                },
            ),
            ..v
        },
        Catalog::Poly => PanelView {
            poly_error: Some(e),
            status: Some(
                if downloaded {
                    "Poly Haven catalog: "@ + e
                } else {
                    "Poly Haven: "@ + e
                },
            ),
            ..v
        },
    }
}

/// What the text of a catalog lists.
pub open spec fn catalog_in(c: Catalog, body: Seq<char>) -> Result<Seq<RemoteView>, Seq<char>> {
    let parsed = parsed_json(body);
    match c {
        Catalog::Ambient => catalog_of(parsed, ambient_catalog(parsed->Ok_0)),
        Catalog::Poly => catalog_of(parsed, poly_catalog(parsed->Ok_0)),
    }
}

/// The library after the download of a catalog ended.
pub open spec fn after_catalog(v: PanelView, c: Catalog, r: Result<String, String>) -> PanelView {
    match r {
        Ok(body) => match catalog_in(c, body@) {
            Ok(entries) => catalog_loaded(v, c, entries),
            Err(e) => catalog_failed(v, c, e, true),
        },
        Err(e) => catalog_failed(v, c, e@, false),
    }
}

/// The library without job `i`.
pub open spec fn job_gone(v: PanelView, i: int) -> PanelView {
    PanelView { jobs: v.jobs.remove(i), ..v }
}

/// The library after a job was advanced.
pub open spec fn after_advance(v: PanelView, i: int, polled: Polled) -> PanelView {
    match v.jobs[i].1 {
        JobView::Catalog(c) => match polled {
            Polled::Text(r) => after_catalog(job_gone(v, i), c, r),
            _ => v,
        },
        JobView::Thumb(_) => match polled {
            Polled::Bytes(_) => job_gone(v, i),
            _ => v,
        },
        JobView::Import(j) => {
            let bytes = match polled {
                Polled::Bytes(r) => download_view(Some(r)),
                _ => None,
            };
            PanelView {
                jobs: v.jobs.update(i, (v.jobs[i].0, JobView::Import(import_after(j, bytes)))),
                status: if j.busy && bytes matches Some(Err(e)) {
                    Some(
                        crate::pbr_import::failed_message(
                            crate::pbr_import::map_in_flight(j),
                            bytes->0->Err_0,
                        ),
                    )
                } else {
                    v.status
                },
                ..v
            }
        },
    }
}

/// The order is what is to be done for the job.
pub open spec fn is_order(order: Advance, v: PanelView, i: int, polled: Polled) -> bool {
    match v.jobs[i].1 {
        JobView::Catalog(_) => order is Nothing,
        JobView::Thumb(key) => match polled {
            Polled::Bytes(Ok(bytes)) => order matches Advance::KeepThumb { key: k, bytes: b } && k@
                == key && b@ == bytes@,
            _ => order is Nothing,
        },
        JobView::Import(j) => if !j.busy && j.pending.len() > 0 {
            order matches Advance::Fetch { url } && url@ == j.pending.last().1
        } else if !j.busy {
            order matches Advance::Store { keys } && keys@.len() == j.done.len() && forall|k: int|
                0 <= k < keys@.len() ==> (#[trigger] keys@[k])@ == map_file(
                    j.source,
                    j.source_id,
                    j.done[k].0,
                )
        } else {
            order is Nothing
        },
    }
}

fn counted(head: &str, count: usize, tail: &str) -> (r: String)
    ensures
        r@ == head@ + decimal(count as nat) + tail@,
{
    let mut s = head.to_owned();
    push_decimal(&mut s, count as u64);
    s.append(tail);
    s
}

proof fn lemma_jobs_remove(jobs: Seq<(u64, Job)>, i: int)
    requires
        0 <= i < jobs.len(),
    ensures
        jobs_view(jobs.remove(i)) == jobs_view(jobs).remove(i),
{
    assert(jobs_view(jobs.remove(i)) =~= jobs_view(jobs).remove(i));
}

impl PbrLibraryPanel {
    /// The library with this local collection.
    pub fn new(local: Vec<LocalPbrEntry>) -> (r: PbrLibraryPanel)
        ensures
            r@ == fresh_panel(locals_view(local@)),
    {
        let r = PbrLibraryPanel {
            tab: Tab::Sources,
            category_filter: "".to_owned(),
            local,
            ambient_entries: Vec::new(),
            poly_entries: Vec::new(),
            ambient_loaded: false,
            poly_loaded: false,
            ambient_error: None,
            poly_error: None,
            jobs: Vec::new(),
            next_job: 0,
            status: None,
            pending_apply: None,
            categories: Vec::new(),
        };
        assert(r@.ambient_entries =~= seq![]);
        assert(r@.poly_entries =~= seq![]);
        assert(r@.jobs =~= seq![]);
        assert(r@.categories =~= seq![]);
        r
    }

    /// What is to be said, once.
    pub fn take_status(&mut self) -> (r: Option<String>)
        ensures
            maybe_text(r) == old(self)@.status,
            final(self)@ == (PanelView { status: None, ..old(self)@ }),
    {
        self.status.take()
    }

    /// The material to put on the selected objects, once.
    pub fn take_apply(&mut self) -> (r: Option<Applied>)
        ensures
            maybe_applied(r) == old(self)@.pending_apply,
            final(self)@ == (PanelView { pending_apply: None, ..old(self)@ }),
    {
        self.pending_apply.take()
    }

    /// The jobs that run, in the order in which they are to be advanced.
    pub fn job_ids(&self) -> (r: Vec<u64>)
        ensures
            r@ == Seq::new(self@.jobs.len(), |i: int| self@.jobs[i].0),
    {
        let mut r: Vec<u64> = Vec::new();
        let mut n: usize = 0;
        while n < self.jobs.len()
            invariant
                n <= self.jobs@.len(),
                r@ == Seq::new(n as nat, |i: int| self.jobs@[i].0),
            decreases self.jobs@.len() - n,
        {
            r.push(self.jobs[n].0);
            n += 1;
            assert(r@ =~= Seq::new(n as nat, |i: int| self.jobs@[i].0));
        }
        assert(r@ =~= Seq::new(self@.jobs.len(), |i: int| self@.jobs[i].0));
        r
    }

    fn take_catalog(&mut self, c: Catalog, result: Result<String, String>)
        ensures
            final(self)@ == after_catalog(old(self)@, c, result),
    {
        match result {
            Ok(body) => {
                let read = match c {
                    Catalog::Ambient => parse_ambientcg_catalog(body.as_str()),
                    Catalog::Poly => parse_polyhaven_catalog(body.as_str()),
                };
                match read {
                    Ok(entries) => {
                        let ghost views = entries_view(entries@);
                        self.categories = collect_categories(&entries);
                        proof {
                            assert(categories_view(entries@) =~= Seq::new(
                                views.len(),
                                |i: int| views[i].category,
                            ));
                        }
                        let count: usize = entries.len();
                        match c {
                            Catalog::Ambient => {
                                self.ambient_entries = entries;
                                self.ambient_loaded = true;
                                self.ambient_error = None;
                                self.status = Some(counted("ambientCG: ", count, " materials"));
                            },
                            Catalog::Poly => {
                                self.poly_entries = entries;
                                self.poly_loaded = true;
                                self.poly_error = None;
                                self.status = Some(counted("Poly Haven: ", count, " textures"));
                            },
                        }
                    },
                    Err(e) => match c {
                        Catalog::Ambient => {
                            self.status = Some(join("ambientCG catalog: ", e.as_str()));
                            self.ambient_error = Some(e);
                        },
                        Catalog::Poly => {
                            self.status = Some(join("Poly Haven catalog: ", e.as_str()));
                            self.poly_error = Some(e);
                        },
                    },
                }
            },
            Err(e) => match c {
                Catalog::Ambient => {
                    self.status = Some(join("ambientCG: ", e.as_str()));
                    self.ambient_error = Some(e);
                },
                Catalog::Poly => {
                    self.status = Some(join("Poly Haven: ", e.as_str()));
                    self.poly_error = Some(e);
                },
            },
        }
    }

    /// Advances a job, given what came of the download that it waits for, and
    /// says what is to be done for it.
    pub fn poll(&mut self, id: u64, polled: Polled) -> (order: Advance)
        ensures
            match job_place(old(self)@.jobs, id, old(self)@.jobs.len()) {
                Some(i) => final(self)@ == after_advance(old(self)@, i, polled) && is_order(
                    order,
                    old(self)@,
                    i,
                    polled,
                ),
                None => final(self)@ == old(self)@ && order is Nothing,
            },
    {
        match find_job(&self.jobs, id) {
            None => Advance::Nothing,
            Some(i) => {
                let ghost before = self.jobs@;
                let ghost v = self@;
                proof {
                    lemma_jobs_remove(before, i as int);
                }
                let (job_id, job) = self.jobs.remove(i);
                assert(v.jobs[i as int] == (job_id, job@));
                match job {
                    Job::Catalog(c) => match polled {
                        Polled::Text(result) => {
                            assert(self@ == job_gone(v, i as int));
                            self.take_catalog(c, result);
                            Advance::Nothing
                        },
                        _ => {
                            self.jobs.insert(i, (job_id, Job::Catalog(c)));
                            assert(self@.jobs =~= v.jobs);
                            Advance::Nothing
                        },
                    },
                    Job::Thumb(key) => match polled {
                        Polled::Bytes(result) => match result {
                            Ok(bytes) => Advance::KeepThumb { key, bytes },
                            Err(_) => Advance::Nothing,
                        },
                        _ => {
                            self.jobs.insert(i, (job_id, Job::Thumb(key)));
                            assert(self@.jobs =~= v.jobs);
                            Advance::Nothing
                        },
                    },
                    Job::Import(import) => {
                        let bytes = match polled {
                            Polled::Bytes(result) => Some(result),
                            _ => None,
                        };
                        let ghost was = import@;
                        let ghost got = download_view(bytes);
                        let mut import = import;
                        let step = step_import(&mut import, bytes);
                        let ghost now = import@;
                        let order = match step {
                            ImportStep::Fetch { url } => Advance::Fetch { url },
                            ImportStep::Complete => {
                                let keys = import_files(&import);
                                proof {
                                    assert forall|k: int| 0 <= k < keys@.len() implies (
                                    #[trigger] keys@[k])@ == map_file(
                                        was.source,
                                        was.source_id,
                                        was.done[k].0,
                                    ) by {
                                        assert(now.done[k].0 == import.done@[k].0@);
                                    }
                                }
                                Advance::Store { keys }
                            },
                            ImportStep::Wait => Advance::Nothing,
                            ImportStep::Failed { message } => {
                                self.status = Some(message);
                                Advance::Nothing
                            },
                        };
                        self.jobs.insert(i, (job_id, Job::Import(import)));
                        assert(self@.jobs =~= v.jobs.update(
                            i as int,
                            (job_id, JobView::Import(now)),
                        ));
                        order
                    },
                }
            },
        }
    }
}

/// What an import puts on the selected objects.
pub open spec fn applied_import(
    j: ImportView,
    t: TexturesView,
    base_color: Option<BaseColor>,
) -> AppliedView {
    AppliedView {
        base_color,
        roughness: Some(Scalar { bits: HALF_BITS }),
        metallic: Some(metalness(t)),
        textures: t,
        name: j.name,
    }
}

/// The colour that an import has: that of its albedo map, where that was
/// stored.
pub open spec fn usable_color(t: TexturesView, base_color: Option<BaseColor>) -> Option<BaseColor> {
    if t.albedo is Some {
        base_color
    } else {
        None
    }
}

/// The library after import `i` was finished, with the maps that were
/// stored.
pub open spec fn after_finish(
    v: PanelView,
    i: int,
    j: ImportView,
    stored: Seq<bool>,
    base_color: Option<BaseColor>,
) -> PanelView {
    let t = stored_textures(j, stored, stored.len());
    let base_color = usable_color(t, base_color);
    PanelView {
        jobs: v.jobs.remove(i),
        local: if j.also_local {
            with_local(v.local, local_entry(j, t, base_color))
        } else {
            v.local
        },
        pending_apply: if j.apply {
            Some(applied_import(j, t, base_color))
        } else {
            v.pending_apply
        },
        status: Some("imported PBR '"@ + j.name + "'"@),
        ..v
    }
}

/// The import that a job is, whose maps number `count`.
pub open spec fn is_import(job: JobView, count: nat) -> bool {
    job matches JobView::Import(j) && j.done.len() == count
}

impl PbrLibraryPanel {
    /// Finishes an import: `stored` says which of its maps could be stored,
    /// `base_color` is the average colour of its albedo map, which counts only
    /// where that map was stored. Returns whether the local collection
    /// changed.
    pub fn finish_import(&mut self, id: u64, stored: &Vec<bool>, base_color: Option<BaseColor>) -> (r:
        bool)
        ensures
            match job_place(old(self)@.jobs, id, old(self)@.jobs.len()) {
                Some(i) if is_import(old(self)@.jobs[i].1, stored@.len()) => {
                    let j = old(self)@.jobs[i].1->Import_0;
                    &&& final(self)@ == after_finish(old(self)@, i, j, stored@, base_color)
                    &&& r == j.also_local
                },
                _ => final(self)@ == old(self)@ && !r,
            },
    {
        match find_job(&self.jobs, id) {
            None => false,
            Some(i) => {
                let ghost before = self.jobs@;
                let ghost v = self@;
                assert(v.jobs[i as int].1 == before[i as int].1@);
                let fits = match &self.jobs[i].1 {
                    Job::Import(j) => {
                        assert(j@.done.len() == j.done@.len());
                        j.done.len() == stored.len()
                    },
                    _ => false,
                };
                if !fits {
                    return false;
                }
                proof {
                    lemma_jobs_remove(before, i as int);
                }
                let (job_id, job) = self.jobs.remove(i);
                match job {
                    Job::Import(j) => {
                        let t = collect_textures(&j, stored);
                        let base_color = if t.albedo.is_some() {
                            base_color
                        } else {
                            None
                        };
                        if j.also_local {
                            let e = make_local_entry(&j, &t, base_color);
                            let mut all: Vec<LocalPbrEntry> = Vec::new();
                            std::mem::swap(&mut all, &mut self.local);
                            self.local = add_local(all, e);
                        }
                        let also_local = j.also_local;
                        let mut message = join("imported PBR '", j.name.as_str());
                        message.append("'");
                        self.status = Some(message);
                        if j.apply {
                            let metallic = Scalar {
                                bits: if t.metallic.is_some() {
                                    ONE_BITS
                                } else {
                                    0
                                },
                            };
                            self.pending_apply = Some(
                                Applied {
                                    base_color,
                                    roughness: Some(Scalar { bits: HALF_BITS }),
                                    metallic: Some(metallic),
                                    textures: t,
                                    name: j.name,
                                },
                            );
                        }
                        also_local
                    },
                    _ => false,
                }
            },
        }
    }
}

/// What `String::from_utf8_lossy` makes of bytes.
pub uninterp spec fn lossy_text(bytes: Seq<u8>) -> Seq<char>;

/// `String::from_utf8_lossy`: the text that the bytes encode, with what is
/// no UTF-8 replaced. It depends on the bytes alone and is named by
/// [`lossy_text`].
#[verifier::external_body]
fn text_of_bytes(bytes: &[u8]) -> (r: String)
    ensures
        r@ == lossy_text(bytes@),
{
    String::from_utf8_lossy(bytes).into_owned()
}

/// The maps that a list of files, as it was downloaded, names.
pub open spec fn maps_in(bytes: Seq<u8>) -> Result<Seq<(Seq<char>, Seq<char>)>, Seq<char>> {
    match parsed_json(lossy_text(bytes)) {
        Ok(v) => poly_maps_outcome(v),
        Err(e) => Err("files json: "@ + e),
    }
}

/// The import has the list of files of a Poly Haven asset.
pub open spec fn has_files(j: ImportView) -> Option<int> {
    if j.source == "polyhaven"@ {
        done_place(j.done, "__files__"@, j.done.len())
    } else {
        None
    }
}

/// The import with the maps that its list of files names.
pub open spec fn expanded(j: ImportView) -> ImportView {
    match has_files(j) {
        Some(k) => {
            let rest = j.done.remove(k);
            match maps_in(j.done[k].1) {
                Ok(maps) => ImportView {
                    done: rest,
                    total_maps: if maps.len() < 1 {
                        1
                    } else {
                        maps.len() as usize
                    },
                    pending: j.pending + maps,
                    ..j
                },
                Err(_) => ImportView { done: rest, ..j },
            }
        },
        None => j,
    }
}

/// What is said where a list of files names no maps.
pub open spec fn expand_status(j: ImportView, status: Option<Seq<char>>) -> Option<Seq<char>> {
    match has_files(j) {
        Some(k) => match maps_in(j.done[k].1) {
            Ok(_) => status,
            Err(e) => Some("Poly Haven files: "@ + e),
        },
        None => status,
    }
}

/// Expands the list of files of an import. Returns what is said.
fn expand_import(j: &mut ImportJob, Ghost(status): Ghost<Option<Seq<char>>>) -> (message: Option<
    String,
>)
    ensures
        final(j)@ == expanded(old(j)@),
        match message {
            Some(m) => expand_status(old(j)@, status) == Some(m@),
            None => expand_status(old(j)@, status) == status,
        },
{
    if !same(j.source, "polyhaven") {
        return None;
    }
    let ghost was = j@;
    match crate::pbr_import::find_done(&j.done, "__files__") {
        None => None,
        Some(k) => {
            let ghost before = j.done@;
            let (name, bytes) = j.done.remove(k);
            proof {
                assert(done_view(j.done@) =~= done_view(before).remove(k as int));
                assert(was.done[k as int].1 == bytes@);
            }
            let body = text_of_bytes(bytes.as_slice());
            match polyhaven_map_urls_from_files_json(body.as_str()) {
                Ok(maps) => {
                    let ghost more = maps_view(maps@);
                    let count: usize = maps.len();
                    assert(more.len() == count);
                    j.total_maps = if count < 1 {
                        1
                    } else {
                        count
                    };
                    let ghost first = j.pending@;
                    let mut maps = maps;
                    let ghost listed = maps@;
                    j.pending.append(&mut maps);
                    proof {
                        assert(j.pending@ == first + listed);
                        assert(maps_view(j.pending@) =~= maps_view(first) + more);
                    }
                    None
                },
                Err(e) => Some(join("Poly Haven files: ", e.as_str())),
            }
        },
    }
}

/// The first `n` jobs with their lists of files expanded.
pub open spec fn jobs_expanded(jobs: Seq<(u64, JobView)>, n: nat) -> Seq<(u64, JobView)>
    decreases n,
{
    if n == 0 {
        jobs
    } else {
        let before = jobs_expanded(jobs, (n - 1) as nat);
        match before[n - 1].1 {
            JobView::Import(j) => before.update(
                n - 1,
                (before[n - 1].0, JobView::Import(expanded(j))),
            ),
            _ => before,
        }
    }
}

/// What is said after the lists of files of the first `n` jobs were
/// expanded.
pub open spec fn expand_statuses(
    jobs: Seq<(u64, JobView)>,
    status: Option<Seq<char>>,
    n: nat,
) -> Option<Seq<char>>
    decreases n,
{
    if n == 0 {
        status
    } else {
        let before = expand_statuses(jobs, status, (n - 1) as nat);
        match jobs[n - 1].1 {
            JobView::Import(j) => expand_status(j, before),
            _ => before,
        }
    }
}

proof fn lemma_jobs_expanded(jobs: Seq<(u64, JobView)>, n: nat)
    requires
        n <= jobs.len(),
    ensures
        jobs_expanded(jobs, n).len() == jobs.len(),
        forall|i: int| n <= i < jobs.len() ==> #[trigger] jobs_expanded(jobs, n)[i] == jobs[i],
    decreases n,
{
    if n > 0 {
        lemma_jobs_expanded(jobs, (n - 1) as nat);
    }
}

impl PbrLibraryPanel {
    /// Replaces each list of files that was downloaded by the maps that it
    /// names. To be called after the jobs were advanced.
    pub fn expand_poly_files(&mut self)
        ensures
            final(self)@ == (PanelView {
                jobs: jobs_expanded(old(self)@.jobs, old(self)@.jobs.len()),
                status: expand_statuses(
                    old(self)@.jobs,
                    old(self)@.status,
                    old(self)@.jobs.len(),
                ),
                ..old(self)@
            }),
    {
        let ghost v = self@;
        let total: usize = self.jobs.len();
        let mut n: usize = 0;
        while n < total
            invariant
                n <= total,
                total == v.jobs.len(),
                v == old(self)@,
                self.jobs@.len() == total,
                self@ == (PanelView {
                    jobs: jobs_expanded(v.jobs, n as nat),
                    status: expand_statuses(v.jobs, v.status, n as nat),
                    ..v
                }),
            decreases total - n,
        {
            proof {
                lemma_jobs_expanded(v.jobs, n as nat);
            }
            let ghost before = self@;
            let ghost raw = self.jobs@;
            let (id, job) = self.jobs.remove(n);
            assert(before.jobs[n as int] == (id, job@));
            assert(before.jobs[n as int] == v.jobs[n as int]);
            match job {
                Job::Import(import) => {
                    let mut import = import;
                    let message = expand_import(&mut import, Ghost(before.status));
                    let ghost now = import@;
                    match message {
                        Some(m) => {
                            self.status = Some(m);
                        },
                        None => {},
                    }
                    self.jobs.insert(n, (id, Job::Import(import)));
                    assert(self@.jobs =~= before.jobs.update(n as int, (id, JobView::Import(now))));
                },
                Job::Catalog(c) => {
                    self.jobs.insert(n, (id, Job::Catalog(c)));
                    assert(self@.jobs =~= before.jobs);
                },
                Job::Thumb(key) => {
                    self.jobs.insert(n, (id, Job::Thumb(key)));
                    assert(self@.jobs =~= before.jobs);
                },
            }
            n += 1;
        }
    }
}

/// A catalog is being downloaded.
pub open spec fn catalog_runs(jobs: Seq<(u64, JobView)>, c: Catalog) -> bool {
    exists|i: int| 0 <= i < jobs.len() && #[trigger] jobs[i].1 == JobView::Catalog(c)
}

/// An import of this id is running.
pub open spec fn import_runs(jobs: Seq<(u64, JobView)>, source_id: Seq<char>) -> bool {
    exists|i: int|
        0 <= i < jobs.len() && ((#[trigger] jobs[i]).1 matches JobView::Import(j) && j.source_id
            == source_id)
}

/// A picture is being downloaded.
pub open spec fn thumb_runs(jobs: Seq<(u64, JobView)>, key: Seq<char>) -> bool {
    exists|i: int| 0 <= i < jobs.len() && #[trigger] jobs[i].1 == JobView::Thumb(key)
}

/// The library with one more job.
pub open spec fn with_job(v: PanelView, job: JobView) -> PanelView {
    PanelView {
        jobs: v.jobs.push((v.next_job, job)),
        next_job: v.next_job.wrapping_add(1),
        ..v
    }
}

/// The library with a catalog being downloaded.
pub open spec fn catalog_started(v: PanelView, c: Catalog) -> PanelView {
    let status = match c {
        Catalog::Ambient => "loading ambientCG catalog…"@,
        Catalog::Poly => "loading Poly Haven catalog…"@,
    };
    PanelView { status: Some(status), ..with_job(v, JobView::Catalog(c)) }
}

/// The categories of local entries.
pub open spec fn local_categories(local: Seq<LocalView>) -> Seq<Seq<char>> {
    text_set(Seq::new(local.len(), |i: int| local[i].category), local.len())
}

/// The catalog of a tab, where it is not loaded nor being loaded.
pub open spec fn missing_catalog(v: PanelView, tab: Tab) -> Option<Catalog> {
    match tab {
        Tab::AmbientCg => if !v.ambient_loaded && !catalog_runs(v.jobs, Catalog::Ambient) {
            Some(Catalog::Ambient)
        } else {
            None
        },
        Tab::PolyHaven => if !v.poly_loaded && !catalog_runs(v.jobs, Catalog::Poly) {
            Some(Catalog::Poly)
        } else {
            None
        },
        _ => None,
    }
}

/// The library with another tab chosen.
pub open spec fn tab_chosen(v: PanelView, tab: Tab) -> PanelView {
    let on_tab = PanelView { tab, category_filter: ""@, ..v };
    match missing_catalog(v, tab) {
        Some(c) => catalog_started(on_tab, c),
        None => if tab is Local {
            PanelView { categories: local_categories(v.local), ..on_tab }
        } else {
            on_tab
        },
    }
}

impl PbrLibraryPanel {
    /// Is the catalog being downloaded?
    pub fn catalog_in_flight(&self, c: Catalog) -> (r: bool)
        ensures
            r == catalog_runs(self@.jobs, c),
    {
        let mut n: usize = 0;
        while n < self.jobs.len()
            invariant
                n <= self.jobs@.len(),
                self@.jobs == jobs_view(self.jobs@),
                forall|i: int|
                    0 <= i < n ==> #[trigger] self@.jobs[i].1 != JobView::Catalog(c),
            decreases self.jobs@.len() - n,
        {
            assert(self@.jobs[n as int].1 == self.jobs@[n as int].1@);
            let hit = match &self.jobs[n].1 {
                Job::Catalog(other) => *other == c,
                _ => false,
            };
            if hit {
                return true;
            }
            n += 1;
        }
        false
    }

    fn import_in_flight(&self, source_id: &str) -> (r: bool)
        ensures
            r == import_runs(self@.jobs, source_id@),
    {
        let mut n: usize = 0;
        while n < self.jobs.len()
            invariant
                n <= self.jobs@.len(),
                self@.jobs == jobs_view(self.jobs@),
                forall|i: int|
                    0 <= i < n ==> !((#[trigger] self@.jobs[i]).1 matches JobView::Import(j)
                        && j.source_id == source_id@),
            decreases self.jobs@.len() - n,
        {
            assert(self@.jobs[n as int].1 == self.jobs@[n as int].1@);
            let hit = match &self.jobs[n].1 {
                Job::Import(j) => same(j.source_id.as_str(), source_id),
                _ => false,
            };
            if hit {
                return true;
            }
            n += 1;
        }
        false
    }

    fn thumb_in_flight(&self, key: &str) -> (r: bool)
        ensures
            r == thumb_runs(self@.jobs, key@),
    {
        let mut n: usize = 0;
        while n < self.jobs.len()
            invariant
                n <= self.jobs@.len(),
                self@.jobs == jobs_view(self.jobs@),
                forall|i: int| 0 <= i < n ==> #[trigger] self@.jobs[i].1 != JobView::Thumb(key@),
            decreases self.jobs@.len() - n,
        {
            assert(self@.jobs[n as int].1 == self.jobs@[n as int].1@);
            let hit = match &self.jobs[n].1 {
                Job::Thumb(other) => same(other.as_str(), key),
                _ => false,
            };
            if hit {
                return true;
            }
            n += 1;
        }
        false
    }

    fn push_job(&mut self, job: Job) -> (id: u64)
        ensures
            id == old(self)@.next_job,
            final(self)@ == with_job(old(self)@, job@),
    {
        let id = self.next_job;
        let ghost v = self@;
        let ghost said = job@;
        self.jobs.push((id, job));
        self.next_job = self.next_job.wrapping_add(1);
        assert(self@.jobs =~= v.jobs.push((id, said)));
        id
    }

    /// Starts downloading a catalog. Returns the job that waits for it.
    pub fn start_catalog(&mut self, c: Catalog) -> (id: u64)
        ensures
            id == old(self)@.next_job,
            final(self)@ == catalog_started(old(self)@, c),
    {
        let id = self.push_job(Job::Catalog(c));
        self.status = Some(
            match c {
                Catalog::Ambient => "loading ambientCG catalog…".to_owned(),
                Catalog::Poly => "loading Poly Haven catalog…".to_owned(),
            },
        );
        id
    }

    /// Forgets that a catalog was loaded, and downloads it again.
    pub fn reload_catalog(&mut self, c: Catalog) -> (id: u64)
        ensures
            id == old(self)@.next_job,
            final(self)@ == catalog_started(
                match c {
                    Catalog::Ambient => PanelView { ambient_loaded: false, ..old(self)@ },
                    Catalog::Poly => PanelView { poly_loaded: false, ..old(self)@ },
                },
                c,
            ),
    {
        match c {
            Catalog::Ambient => {
                self.ambient_loaded = false;
            },
            Catalog::Poly => {
                self.poly_loaded = false;
            },
        }
        self.start_catalog(c)
    }

    /// Chooses a tab. Where it shows a catalog that is not loaded yet, that
    /// is downloaded; returns the job that waits for it.
    pub fn choose_tab(&mut self, tab: Tab) -> (r: Option<(u64, Catalog)>)
        ensures
            final(self)@ == tab_chosen(old(self)@, tab),
            r == (match missing_catalog(old(self)@, tab) {
                Some(c) => Some((old(self)@.next_job, c)),
                None => None,
            }),
    {
        let missing = match tab {
            Tab::AmbientCg => if !self.ambient_loaded && !self.catalog_in_flight(
                Catalog::Ambient,
            ) {
                Some(Catalog::Ambient)
            } else {
                None
            },
            Tab::PolyHaven => if !self.poly_loaded && !self.catalog_in_flight(Catalog::Poly) {
                Some(Catalog::Poly)
            } else {
                None
            },
            _ => None,
        };
        self.tab = tab;
        self.category_filter = "".to_owned();
        match missing {
            Some(c) => {
                let id = self.start_catalog(c);
                Some((id, c))
            },
            None => {
                if tab == Tab::Local {
                    let mut list: Vec<String> = Vec::new();
                    let ghost views = self@.local;
                    let mut n: usize = 0;
                    while n < self.local.len()
                        invariant
                            n <= self.local@.len(),
                            views == locals_view(self.local@),
                            list@.len() == n,
                            forall|k: int|
                                0 <= k < n ==> (#[trigger] list@[k])@ == views[k].category,
                        decreases self.local@.len() - n,
                    {
                        list.push(self.local[n].category.as_str().to_owned());
                        n += 1;
                    }
                    assert(strings_view(list@) =~= Seq::new(
                        views.len(),
                        |i: int| views[i].category,
                    ));
                    self.categories = collect_texts(&list);
                }
                None
            },
        }
    }

    /// Chooses a category; choosing the chosen one again chooses none.
    pub fn choose_category(&mut self, category: &str)
        ensures
            final(self)@ == (PanelView {
                category_filter: if old(self)@.category_filter == category@ {
                    ""@
                } else {
                    category@
                },
                ..old(self)@
            }),
    {
        self.category_filter = if same(self.category_filter.as_str(), category) {
            "".to_owned()
        } else {
            category.to_owned()
        };
    }

    /// Starts downloading the picture `key`, unless it is there already or
    /// being downloaded. Returns the job that waits for it.
    pub fn ensure_thumb(&mut self, key: &str, loaded: bool) -> (r: Option<u64>)
        ensures
            ({
                let start = !loaded && !thumb_runs(old(self)@.jobs, key@);
                &&& r == (if start {
                    Some(old(self)@.next_job)
                } else {
                    None
                })
                &&& final(self)@ == (if start {
                    with_job(old(self)@, JobView::Thumb(key@))
                } else {
                    old(self)@
                })
            }),
    {
        if loaded || self.thumb_in_flight(key) {
            return None;
        }
        Some(self.push_job(Job::Thumb(key.to_owned())))
    }
}

/// The import of a listed material, as it starts. An ambientCG asset has
/// known maps; of a Poly Haven asset the list of files comes first. Nothing
/// else can be imported.
pub open spec fn import_of(e: RemoteView, apply: bool, also_local: bool) -> Option<ImportView> {
    let maps = if e.source == "ambientcg"@ {
        Some(ambient_maps(e.source_id))
    } else if e.source == "polyhaven"@ {
        Some(seq![("__files__"@, "https://api.polyhaven.com/files/"@ + e.source_id)])
    } else {
        None
    };
    match maps {
        Some(pending) => Some(
            ImportView {
                source: e.source,
                source_id: e.source_id,
                name: e.name,
                category: e.category,
                pending,
                done: seq![],
                total_maps: pending.len() as usize,
                busy: false,
                current_map: None,
                apply,
                also_local,
            },
        ),
        None => None,
    }
}

/// The library after an import was asked for.
pub open spec fn import_asked(
    v: PanelView,
    e: RemoteView,
    apply: bool,
    also_local: bool,
) -> PanelView {
    if import_runs(v.jobs, e.source_id) {
        PanelView { status: Some("import already in progress"@), ..v }
    } else {
        match import_of(e, apply, also_local) {
            Some(j) => PanelView {
                status: Some("downloading "@ + e.name + "…"@),
                ..with_job(v, JobView::Import(j))
            },
            None => v,
        }
    }
}

impl PbrLibraryPanel {
    /// Starts importing a listed material, unless it is being imported
    /// already.
    pub fn start_import(&mut self, e: &RemotePbrEntry, apply: bool, also_local: bool)
        ensures
            final(self)@ == import_asked(old(self)@, e@, apply, also_local),
    {
        if self.import_in_flight(e.source_id.as_str()) {
            self.status = Some("import already in progress".to_owned());
            return ;
        }
        let mut pending: Vec<(String, String)> = Vec::new();
        if same(e.source, "ambientcg") {
            pending = ambientcg_map_urls(e.source_id.as_str());
        } else if same(e.source, "polyhaven") {
            let url = join("https://api.polyhaven.com/files/", e.source_id.as_str());
            let ghost said = url@;
            pending.push(("__files__".to_owned(), url));
            assert(maps_view(pending@) =~= seq![("__files__"@, said)]);
        } else {
            return ;
        }
        let total_maps: usize = pending.len();
        let done: Vec<(String, Vec<u8>)> = Vec::new();
        assert(done_view(done@) =~= seq![]);
        assert(maps_view(pending@).len() == total_maps);
        let job = ImportJob {
            source: e.source,
            source_id: e.source_id.as_str().to_owned(),
            name: e.name.as_str().to_owned(),
            category: e.category.as_str().to_owned(),
            pending,
            done,
            total_maps,
            busy: false,
            current_map: None,
            apply,
            also_local,
        };
        assert(Some(job@) == import_of(e@, apply, also_local));
        let id = self.push_job(Job::Import(job));
        let mut message = join("downloading ", e.name.as_str());
        message.append("…");
        self.status = Some(message);
    }
}

/// The first import of this id among the first `n` jobs.
pub open spec fn import_place(jobs: Seq<(u64, JobView)>, source_id: Seq<char>, n: nat) -> Option<
    int,
>
    decreases n,
{
    if n == 0 {
        None
    } else if import_place(jobs, source_id, (n - 1) as nat) is Some {
        import_place(jobs, source_id, (n - 1) as nat)
    } else if jobs[n - 1].1 matches JobView::Import(j) && j.source_id == source_id {
        Some(n - 1)
    } else {
        None
    }
}

impl PbrLibraryPanel {
    /// How far the import of a material is, where one is running.
    pub fn import_progress(&self, source_id: &str) -> (r: Option<Progress>)
        ensures
            match import_place(self@.jobs, source_id@, self@.jobs.len()) {
                Some(i) => {
                    let j = self@.jobs[i].1->Import_0;
                    j.done.len() + j.pending.len() < usize::MAX ==> (r matches Some(p)
                        && p.completed == real_done(j.done, j.done.len()) && p.total == total_of(j)
                        && p.in_flight == crate::pbr_import::is_in_flight(j) && p.resolving
                        == crate::pbr_import::is_resolving(j) && p.label@ == progress_label(j))
                },
                None => r is None,
            },
    {
        let ghost all = self@.jobs;
        let mut found: Option<usize> = None;
        let mut n: usize = 0;
        while n < self.jobs.len()
            invariant
                n <= self.jobs@.len(),
                all == self@.jobs,
                all == jobs_view(self.jobs@),
                found matches Some(i) ==> import_place(all, source_id@, n as nat) == Some(i as int)
                    && i < n && all[i as int].1 is Import,
                found is None ==> import_place(all, source_id@, n as nat) is None,
            decreases self.jobs@.len() - n,
        {
            assert(all[n as int].1 == self.jobs@[n as int].1@);
            let hit = match &self.jobs[n].1 {
                Job::Import(j) => same(j.source_id.as_str(), source_id),
                _ => false,
            };
            if found.is_none() && hit {
                found = Some(n);
            }
            n += 1;
        }
        match found {
            None => None,
            Some(i) => {
                assert(all[i as int].1 == self.jobs@[i as int].1@);
                match &self.jobs[i].1 {
                    Job::Import(j) => {
                        assert(j@.done.len() == j.done@.len());
                        assert(j@.pending.len() == j.pending@.len());
                        let pending: usize = j.pending.len();
                        if j.done.len() < usize::MAX - pending {
                            Some(progress_of(j))
                        } else {
                            None
                        }
                    },
                    _ => None,
                }
            },
        }
    }
}

/// The local entry is listed for a query in small letters.
pub open spec fn is_local_listed(e: LocalView, query: Seq<char>) -> bool {
    ||| query.len() == 0
    ||| occurs(lowercased(e.name), query)
    ||| occurs(lowercased(e.category), query)
    ||| occurs(lowercased(e.source_id), query)
}

/// The places of the listed ones among the first `n` local entries.
pub open spec fn local_places(entries: Seq<LocalView>, query: Seq<char>, n: nat) -> Seq<usize>
    decreases n,
{
    if n == 0 {
        seq![]
    } else if is_local_listed(entries[n - 1], query) {
        local_places(entries, query, (n - 1) as nat).push((n - 1) as usize)
    } else {
        local_places(entries, query, (n - 1) as nat)
    }
}

/// What a local entry puts on the selected objects.
pub open spec fn applied_local(e: LocalView) -> AppliedView {
    AppliedView {
        base_color: e.base_color,
        roughness: e.roughness,
        metallic: e.metallic,
        textures: e.textures,
        name: e.name,
    }
}

impl PbrLibraryPanel {
    /// The local entries to show for a search text, by place.
    pub fn filter_local(&self, search: &str) -> (r: Vec<usize>)
        ensures
            r@ == local_places(self@.local, lowercased(search@), self@.local.len()),
    {
        let query = to_lowercase(search);
        let ghost all = self@.local;
        let mut r: Vec<usize> = Vec::new();
        let mut n: usize = 0;
        while n < self.local.len()
            invariant
                n <= self.local@.len(),
                all == locals_view(self.local@),
                query@ == lowercased(search@),
                r@ == local_places(all, query@, n as nat),
            decreases self.local@.len() - n,
        {
            assert(all[n as int] == self.local@[n as int]@);
            let e = &self.local[n];
            let listed = query.as_str().is_empty() || contains(
                to_lowercase(e.name.as_str()).as_str(),
                query.as_str(),
            ) || contains(to_lowercase(e.category.as_str()).as_str(), query.as_str())
                || contains(to_lowercase(e.source_id.as_str()).as_str(), query.as_str());
            if listed {
                r.push(n);
            }
            n += 1;
        }
        r
    }

    /// Puts a local material on the selected objects.
    pub fn apply_local(&mut self, place: usize)
        requires
            place < old(self)@.local.len(),
        ensures
            final(self)@ == (PanelView {
                pending_apply: Some(applied_local(old(self)@.local[place as int])),
                status: Some("applying '"@ + old(self)@.local[place as int].name + "'…"@),
                ..old(self)@
            }),
    {
        assert(self@.local[place as int] == self.local@[place as int]@);
        let e = &self.local[place];
        let mut message = join("applying '", e.name.as_str());
        message.append("'…");
        let applied = Applied {
            base_color: e.base_color,
            roughness: e.roughness,
            metallic: e.metallic,
            textures: copy_textures(&e.textures),
            name: e.name.as_str().to_owned(),
        };
        self.pending_apply = Some(applied);
        self.status = Some(message);
    }

    /// Takes a material out of the local collection.
    pub fn delete_local(&mut self, id: &str)
        ensures
            final(self)@ == (PanelView {
                local: without_id(old(self)@.local, id@, old(self)@.local.len()),
                status: Some("removed from local collection"@),
                ..old(self)@
            }),
    {
        let mut all: Vec<LocalPbrEntry> = Vec::new();
        let ghost views = self@.local;
        std::mem::swap(&mut all, &mut self.local);
        assert(locals_view(all@).len() == all@.len());
        self.local = remove_local(all, id);
        self.status = Some("removed from local collection".to_owned());
    }

    /// The local collection.
    pub fn local(&self) -> (r: &Vec<LocalPbrEntry>)
        ensures
            locals_view(r@) == self@.local,
    {
        &self.local
    }

    /// The listed materials of a catalog.
    pub fn entries(&self, c: Catalog) -> (r: &Vec<RemotePbrEntry>)
        ensures
            entries_view(r@) == (match c {
                Catalog::Ambient => self@.ambient_entries,
                Catalog::Poly => self@.poly_entries,
            }),
    {
        match c {
            Catalog::Ambient => &self.ambient_entries,
            Catalog::Poly => &self.poly_entries,
        }
    }

    /// Is the catalog loaded?
    pub fn is_loaded(&self, c: Catalog) -> (r: bool)
        ensures
            r == (match c {
                Catalog::Ambient => self@.ambient_loaded,
                Catalog::Poly => self@.poly_loaded,
            }),
    {
        match c {
            Catalog::Ambient => self.ambient_loaded,
            Catalog::Poly => self.poly_loaded,
        }
    }

    /// What went wrong with a catalog, where something did.
    pub fn error(&self, c: Catalog) -> (r: Option<&String>)
        ensures
            (match r {
                Some(e) => Some(e@),
                None => None,
            }) == (match c {
                Catalog::Ambient => self@.ambient_error,
                Catalog::Poly => self@.poly_error,
            }),
    {
        match c {
            Catalog::Ambient => self.ambient_error.as_ref(),
            Catalog::Poly => self.poly_error.as_ref(),
        }
    }

    /// The downloaded maps of an import, in the order of its keys.
    pub fn import_maps(&self, id: u64) -> (r: Option<&Vec<MapBytes>>)
        ensures
            match job_place(self@.jobs, id, self@.jobs.len()) {
                Some(i) => match self@.jobs[i].1 {
                    JobView::Import(j) => r matches Some(maps) && done_view(maps@) == j.done,
                    _ => r is None,
                },
                None => r is None,
            },
    {
        match find_job(&self.jobs, id) {
            None => None,
            Some(i) => {
                assert(self@.jobs[i as int].1 == self.jobs@[i as int].1@);
                match &self.jobs[i].1 {
                    Job::Import(j) => Some(&j.done),
                    _ => None,
                }
            },
        }
    }

    /// The categories of the chosen tab.
    pub fn categories(&self) -> (r: &Vec<String>)
        ensures
            strings_view(r@) == self@.categories,
    {
        &self.categories
    }

    /// The chosen tab.
    pub fn tab(&self) -> (r: Tab)
        ensures
            r == self@.tab,
    {
        self.tab
    }

    /// The chosen category, empty where none is.
    pub fn category_filter(&self) -> (r: &str)
        ensures
            r@ == self@.category_filter,
    {
        self.category_filter.as_str()
    }
}

/// A catalog that arrives is listed under its own source and clears its
/// error; the other catalog, the jobs and the collection stay.
pub proof fn law_catalogs_arrive_apart(v: PanelView, c: Catalog, entries: Seq<RemoteView>)
    ensures
        ({
            let now = catalog_loaded(v, c, entries);
            &&& c is Ambient ==> now.ambient_entries == entries && now.ambient_loaded
                && now.ambient_error is None && now.poly_entries == v.poly_entries
                && now.poly_loaded == v.poly_loaded && now.poly_error == v.poly_error
            &&& c is Poly ==> now.poly_entries == entries && now.poly_loaded && now.poly_error
                is None && now.ambient_entries == v.ambient_entries && now.ambient_loaded
                == v.ambient_loaded && now.ambient_error == v.ambient_error
            &&& now.jobs == v.jobs && now.local == v.local && now.pending_apply == v.pending_apply
        }),
{
}

/// A catalog that fails to arrive says so under its own source, and what was
/// listed stays.
pub proof fn law_failed_catalogs_keep_the_list(
    v: PanelView,
    c: Catalog,
    e: Seq<char>,
    downloaded: bool,
)
    ensures
        ({
            let now = catalog_failed(v, c, e, downloaded);
            &&& c is Ambient ==> now.ambient_error == Some(e) && now.poly_error == v.poly_error
            &&& c is Poly ==> now.poly_error == Some(e) && now.ambient_error == v.ambient_error
            &&& now.ambient_entries == v.ambient_entries && now.poly_entries == v.poly_entries
            &&& now.ambient_loaded == v.ambient_loaded && now.poly_loaded == v.poly_loaded
            &&& now.status is Some
        }),
{
}

/// Choosing a tab loads its catalog only where it is neither there nor on
/// its way.
pub proof fn law_catalogs_are_loaded_once(v: PanelView, tab: Tab)
    ensures
        missing_catalog(v, tab) matches Some(Catalog::Ambient) ==> tab is AmbientCg
            && !v.ambient_loaded,
        missing_catalog(v, tab) matches Some(Catalog::Poly) ==> tab is PolyHaven && !v.poly_loaded,
        tab is AmbientCg && !v.ambient_loaded && (forall|i: int|
            0 <= i < v.jobs.len() ==> #[trigger] v.jobs[i].1 != JobView::Catalog(Catalog::Ambient))
            ==> missing_catalog(v, tab) == Some(Catalog::Ambient),
        tab is PolyHaven && !v.poly_loaded && (forall|i: int|
            0 <= i < v.jobs.len() ==> #[trigger] v.jobs[i].1 != JobView::Catalog(Catalog::Poly))
            ==> missing_catalog(v, tab) == Some(Catalog::Poly),
        missing_catalog(tab_chosen(v, tab), tab) is None,
        tab_chosen(v, tab).tab == tab,
        tab_chosen(v, tab).local == v.local,
{
    if let Some(c) = missing_catalog(v, tab) {
        let now = tab_chosen(v, tab);
        assert(now.jobs[v.jobs.len() as int].1 == JobView::Catalog(c));
    }
}

/// A job gets a number of its own and stands behind the others.
pub proof fn law_jobs_are_numbered(v: PanelView, job: JobView, i: int)
    requires
        0 <= i < v.jobs.len(),
    ensures
        with_job(v, job).jobs.len() == v.jobs.len() + 1,
        with_job(v, job).jobs.last() == (v.next_job, job),
        with_job(v, job).jobs[i] == v.jobs[i],
        with_job(v, job).next_job != v.next_job,
{
}

/// A material is imported from its own source: its maps are asked for by its
/// id, and nothing is done yet. What runs already is not started again.
pub proof fn law_imports_start_from_the_entry(
    v: PanelView,
    e: RemoteView,
    apply: bool,
    also_local: bool,
)
    ensures
        import_runs(v.jobs, e.source_id) ==> import_asked(v, e, apply, also_local).jobs == v.jobs,
        import_of(e, apply, also_local) matches Some(j) ==> {
            &&& j.source == e.source && j.source_id == e.source_id
            &&& j.name == e.name && j.category == e.category
            &&& j.done.len() == 0 && !j.busy && j.current_map is None
            &&& j.apply == apply && j.also_local == also_local
            &&& j.pending.len() > 0
        },
        !import_runs(v.jobs, e.source_id) && import_of(e, apply, also_local) is Some
            ==> import_runs(import_asked(v, e, apply, also_local).jobs, e.source_id),
{
    if !import_runs(v.jobs, e.source_id) && import_of(e, apply, also_local) is Some {
        let now = import_asked(v, e, apply, also_local).jobs;
        let j = import_of(e, apply, also_local)->0;
        assert(now[v.jobs.len() as int] == (v.next_job, JobView::Import(j)));
    }
}

/// A finished import joins the collection where that was asked, is applied
/// where that was asked, and its job is gone.
pub proof fn law_imports_do_what_was_asked(
    v: PanelView,
    i: int,
    j: ImportView,
    stored: Seq<bool>,
    color: Option<BaseColor>,
)
    requires
        0 <= i < v.jobs.len(),
    ensures
        ({
            let now = after_finish(v, i, j, stored, color);
            let t = stored_textures(j, stored, stored.len());
            &&& now.jobs.len() + 1 == v.jobs.len()
            &&& !j.also_local ==> now.local == v.local
            &&& j.also_local ==> now.local[0].source_id == j.source_id && now.local[0].textures == t
            &&& !j.apply ==> now.pending_apply == v.pending_apply
            &&& j.apply ==> (now.pending_apply matches Some(a) && a.textures == t && a.name
                == j.name)
        }),
        usable_color(stored_textures(j, stored, stored.len()), color) is Some ==> stored_textures(
            j,
            stored,
            stored.len(),
        ).albedo is Some,
{
}

/// The list of files is replaced by the maps it names; what was waiting and
/// what is done otherwise stay.
pub proof fn law_file_lists_become_maps(j: ImportView)
    ensures
        has_files(j) is None ==> expanded(j) == j,
        has_files(j) is Some ==> ({
            let now = expanded(j);
            let list = maps_in(j.done[has_files(j)->0].1);
            &&& now.done == j.done.remove(has_files(j)->0)
            &&& list matches Ok(maps) ==> now.pending == j.pending + maps
            &&& list is Err ==> now.pending == j.pending && now.total_maps == j.total_maps
            &&& now.source == j.source && now.source_id == j.source_id && now.busy == j.busy
        }),
{
}

/// What is applied from the collection is the entry as it is kept.
pub proof fn law_local_materials_are_applied_whole(e: LocalView)
    ensures
        ({
            let a = applied_local(e);
            &&& a.textures == e.textures && a.name == e.name
            &&& a.base_color == e.base_color
            &&& a.roughness == e.roughness && a.metallic == e.metallic
        }),
{
}

/// The collection is searched by name, category and id, and shown in order.
pub proof fn law_local_search_shows_what_it_finds(
    entries: Seq<LocalView>,
    query: Seq<char>,
    n: nat,
    i: usize,
)
    requires
        n <= entries.len() <= usize::MAX,
    ensures
        local_places(entries, query, n).contains(i) <==> i < n && (query.len() == 0 || occurs(
            lowercased(entries[i as int].name),
            query,
        ) || occurs(lowercased(entries[i as int].category), query) || occurs(
            lowercased(entries[i as int].source_id),
            query,
        )),
    decreases n,
{
    if n > 0 {
        law_local_search_shows_what_it_finds(entries, query, (n - 1) as nat, i);
        let before = local_places(entries, query, (n - 1) as nat);
        let now = local_places(entries, query, n);
        if before.contains(i) {
            let k = choose|k: int| 0 <= k < before.len() && before[k] == i;
            assert(now[k] == i);
        }
        if now.len() > before.len() {
            assert(now[before.len() as int] == n - 1);
        }
        if now.contains(i) && !before.contains(i) {
            assert(i == n - 1);
        }
    }
}

} // verus!
