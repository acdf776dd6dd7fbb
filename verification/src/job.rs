//! The course of a build: what is done after what, and what becomes of a
//! failure.
//!
//! A [`Build`] says which step is due; whoever drives it does the step and
//! reports the outcome. The image is written under a temporary name beside the
//! output, and takes the place of the output only when it is complete. No
//! payload file is ever overwritten: where one of them is the output, the
//! build fails before anything is written.
use vstd::prelude::*;
use crate::artifacts::{hiding, try_hide_engine_artifacts};
use crate::collect::{CollectedPayload, RecordView};
use crate::esp::{
    container_holds_payload, container_made, esp_text, in_payload, is_dir_at,
    is_dir_in, payload_paths, EspError,
};
use crate::fat::fat_tree;
use crate::image::{
    build_container, dirs_of, first_reserved, first_reserved_is_first, image_settings, label_for,
    none_reserved, plan_image, sectors_in, summarize, temporary_name, temporary_text, BuildError,
    BuildSummary, ImageSettings, Options, ReadFault,
};
use crate::order::bytes_eq;

verus! {

/// The step that is due.
pub enum Stage {
    /// Walk the inputs.
    Collect,
    /// Resolve the path of the output.
    Output,
    /// Resolve the path of the next payload file.
    Source,
    /// Read the next payload file.
    Read,
    /// See whether a temporary name is taken, at the given attempt.
    Probe(u32),
    /// Create the temporary file.
    Create,
    /// Write the image to it.
    Write,
    /// Read it back.
    Load,
    /// Replace its contents by the patched image.
    Store,
    /// Measure it.
    Measure,
    /// See whether the output exists.
    Look,
    /// Remove the output.
    Remove,
    /// Give the temporary file the name of the output.
    Rename,
    /// Nothing: the image stands.
    Done,
    /// Remove the temporary file; the build has failed.
    Discard(BuildError),
    /// Nothing: the build has failed.
    Failed(BuildError),
}

/// A build under way.
pub struct Build {
    pub stage: Stage,
    pub options: Options,
    /// The output, as messages show it.
    pub shown: String,
    /// The stem of the output, where it has one.
    pub stem: Option<String>,
    pub payload: CollectedPayload,
    /// What the output resolves to.
    pub target: Vec<u8>,
    /// What the payload files resolve to, as far as they have been resolved.
    pub resolved: Vec<Vec<u8>>,
    /// The payload files with their contents, as far as they have been read.
    pub entries: Vec<(String, Vec<u8>)>,
    /// The FAT container.
    pub container: Option<Vec<u8>>,
    pub label: String,
    /// The temporary file, as messages show it.
    pub temporary: String,
    /// The patched image.
    pub image: Vec<u8>,
    pub sectors: u64,
}

/// The first payload files with contents.
pub open spec fn read_so_far(records: Seq<RecordView>, entries: Seq<(String, Vec<u8>)>) -> bool {
    &&& entries.len() <= records.len()
    &&& forall|i: int|
        0 <= i < entries.len() ==> (#[trigger] entries[i]).0@ == records[i].relative_path
}

/// The container of a bootable disc holds every payload file and directory.
pub open spec fn contained(b: Build) -> bool {
    &&& first_reserved(b.payload@.records) is None
    &&& read_so_far(b.payload@.records, b.entries@)
    &&& b.entries@.len() == b.payload@.records.len()
    &&& b.container matches Some(c) && container_made(dirs_of(b.payload@), b.entries@, Ok(c))
}

impl Build {
    /// The same build with another step due.
    pub open spec fn at(self, stage: Stage) -> Build {
        Build { stage, ..self }
    }

    pub open spec fn bootable(self) -> bool {
        !self.options.no_eltorito
    }

    /// None of the payload files resolved so far is the output.
    pub open spec fn apart(self) -> bool {
        &&& self.resolved@.len() <= self.payload@.records.len()
        &&& forall|i: int|
            0 <= i < self.resolved@.len() ==> (#[trigger] self.resolved@[i])@ != self.target@
    }

    /// Everything is known that the image is made of.
    pub open spec fn settled(self) -> bool {
        &&& self.apart()
        &&& self.resolved@.len() == self.payload@.records.len()
        &&& if self.bootable() {
            contained(self)
        } else {
            self.container is None
        }
    }

    /// A build as it can come about.
    pub open spec fn wf(self) -> bool {
        match self.stage {
            Stage::Collect | Stage::Output => {
                &&& self.resolved@.len() == 0
                &&& self.entries@.len() == 0
                &&& self.container is None
            },
            Stage::Source => {
                &&& self.apart()
                &&& self.resolved@.len() < self.payload@.records.len()
                &&& self.entries@.len() == 0
                &&& self.container is None
            },
            Stage::Read => {
                &&& self.apart()
                &&& self.resolved@.len() == self.payload@.records.len()
                &&& self.bootable()
                &&& first_reserved(self.payload@.records) is None
                &&& read_so_far(self.payload@.records, self.entries@)
                &&& self.entries@.len() < self.payload@.records.len()
            },
            Stage::Failed(_) => true,
            _ => self.settled(),
        }
    }

    /// The build that comes of one whose payload files have all been read.
    pub open spec fn packs(self, r: Build) -> bool {
        exists|made: Result<Vec<u8>, EspError>| #[trigger]
            container_made(dirs_of(self.payload@), self.entries@, made) && match made {
                Ok(c) => r == (Build { container: Some(c), stage: Stage::Probe(0), ..self }),
                Err(x) => {
                    &&& r.stage matches Stage::Failed(BuildError::ImageBuild(message))
                        && message@ == esp_text(x)
                    &&& r == self.at(r.stage)
                },
            }
    }

    /// The build that comes of one whose payload files have all been resolved.
    pub open spec fn settles(self, r: Build) -> bool {
        let labelled = Build { label: r.label, ..self };
        match first_reserved(self.payload@.records) {
            Some(p) if self.bootable() => {
                &&& r.stage matches Stage::Failed(BuildError::ReservedArtifact(name)) && name@ == p
                &&& r == self.at(r.stage)
            },
            _ => {
                &&& r.label@ == label_for(
                    match self.stem {
                        Some(s) => Some(s@),
                        None => None,
                    },
                    match self.options.label {
                        Some(l) => Some(l@),
                        None => None,
                    },
                )
                &&& if !self.bootable() {
                    r == labelled.at(Stage::Probe(0))
                } else if self.payload@.records.len() == 0 {
                    labelled.packs(r)
                } else {
                    r == labelled.at(Stage::Read)
                }
            },
        }
    }

    /// A build with the payload files resolved so far.
    pub open spec fn goes_on(self, r: Build) -> bool {
        if self.resolved@.len() < self.payload@.records.len() {
            r == self.at(Stage::Source)
        } else {
            self.settles(r)
        }
    }

    /// Begins a build.
    pub fn new(inputs: usize, options: Options, shown: &str, stem: Option<String>) -> (r: Result<
        Build,
        BuildError,
    >)
        ensures
            match r {
                Ok(b) => {
                    &&& inputs > 0
                    &&& b.wf()
                    &&& b.stage is Collect
                    &&& b.options == options
                    &&& b.shown@ == shown@
                    &&& b.stem == stem
                },
                Err(e) => inputs == 0 && e == BuildError::NoInputs,
            },
    {
        if inputs == 0 {
            return Err(BuildError::NoInputs);
        }
        Ok(
            Build {
                stage: Stage::Collect,
                options,
                shown: shown.to_string(),
                stem,
                payload: CollectedPayload {
                    dirs: Vec::new(),
                    records: Vec::new(),
                    directory_count: 0,
                    payload_bytes: 0,
                },
                target: Vec::new(),
                resolved: Vec::new(),
                entries: Vec::new(),
                container: None,
                label: String::new(),
                temporary: String::new(),
                image: Vec::new(),
                sectors: 0,
            },
        )
    }

    /// The inputs have been walked.
    pub fn collected(self, outcome: Result<CollectedPayload, String>) -> (r: Build)
        requires
            self.wf(),
            self.stage is Collect,
        ensures
            r.wf(),
            match outcome {
                Ok(payload) => r == (Build { payload, stage: Stage::Output, ..self }),
                Err(message) => r == self.at(Stage::Failed(BuildError::Collection(message))),
            },
    {
        let mut b: Build = self;
        match outcome {
            Ok(payload) => {
                b.payload = payload;
                b.stage = Stage::Output;
            },
            Err(message) => {
                b.stage = Stage::Failed(BuildError::Collection(message));
            },
        }
        b
    }

    /// The path of the output has been resolved.
    pub fn output_resolved(self, outcome: Result<Vec<u8>, String>) -> (r: Build)
        requires
            self.wf(),
            self.stage is Output,
        ensures
            r.wf(),
            match outcome {
                Ok(target) => (Build { target, ..self }).goes_on(r),
                Err(message) => r == self.at(Stage::Failed(BuildError::OutputPath(message))),
            },
    {
        let mut b: Build = self;
        match outcome {
            Ok(target) => {
                b.target = target;
                b.next_source()
            },
            Err(message) => {
                b.stage = Stage::Failed(BuildError::OutputPath(message));
                b
            },
        }
    }

    /// The path of the next payload file has been resolved.
    pub fn source_resolved(self, outcome: Result<Vec<u8>, String>) -> (r: Build)
        requires
            self.wf(),
            self.stage is Source,
        ensures
            r.wf(),
            match outcome {
                Ok(path) => if path@ == self.target@ {
                    &&& r.stage matches Stage::Failed(BuildError::OutputConflict(shown)) && shown@
                        == self.shown@
                    &&& r == self.at(r.stage)
                } else {
                    exists|resolved: Vec<Vec<u8>>|
                        #![trigger resolved@]
                        resolved@ == self.resolved@.push(path) && (Build {
                            resolved,
                            ..self
                        }).goes_on(r)
                },
                Err(message) => r == self.at(Stage::Failed(BuildError::Collection(message))),
            },
    {
        let mut b: Build = self;
        match outcome {
            Ok(path) => {
                if bytes_eq(path.as_slice(), b.target.as_slice()) {
                    let shown: String = b.shown.clone();
                    b.stage = Stage::Failed(BuildError::OutputConflict(shown));
                    return b;
                }
                b.resolved.push(path);
                let ghost resolved = b.resolved;
                assert(resolved@ == self.resolved@.push(path));
                b.next_source()
            },
            Err(message) => {
                b.stage = Stage::Failed(BuildError::Collection(message));
                b
            },
        }
    }

    fn next_source(self) -> (r: Build)
        requires
            self.apart(),
            self.entries@.len() == 0,
            self.container is None,
        ensures
            r.wf(),
            self.goes_on(r),
    {
        let mut b: Build = self;
        if b.resolved.len() < b.payload.records.len() {
            b.stage = Stage::Source;
            return b;
        }
        let stem: Option<&str> = match &b.stem {
            Some(s) => Some(s.as_str()),
            None => None,
        };
        match plan_image(&b.payload, &b.options, stem) {
            Ok((label, bootable)) => {
                b.label = label;
                if !bootable {
                    b.stage = Stage::Probe(0);
                    b
                } else if b.payload.records.len() == 0 {
                    b.pack()
                } else {
                    b.stage = Stage::Read;
                    b
                }
            },
            Err(e) => {
                b.stage = Stage::Failed(e);
                b
            },
        }
    }

    /// The next payload file has been read.
    pub fn read(self, outcome: Result<Vec<u8>, ReadFault>) -> (r: Build)
        requires
            self.wf(),
            self.stage is Read,
        ensures
            r.wf(),
            match outcome {
                Ok(content) => exists|entries: Vec<(String, Vec<u8>)>|
                    #![trigger entries@]
                    {
                        let b = Build { entries, ..self };
                        &&& entries@.len() == self.entries@.len() + 1
                        &&& entries@.drop_last() == self.entries@
                        &&& entries@.last().0@
                            == self.payload@.records[self.entries@.len() as int].relative_path
                        &&& entries@.last().1 == content
                        &&& if entries@.len() < self.payload@.records.len() {
                            r == b
                        } else {
                            b.packs(r)
                        }
                    },
                Err(fault) => r == self.at(
                    Stage::Failed(
                        (BuildError::PayloadRead { path: fault.path, message: fault.message }),
                    ),
                ),
            },
    {
        let mut b: Build = self;
        match outcome {
            Ok(content) => {
                let path: String = b.payload.records[b.entries.len()].relative_path.clone();
                b.entries.push((path, content));
                assert(b.entries@.drop_last() =~= self.entries@);
                if b.entries.len() < b.payload.records.len() {
                    b
                } else {
                    b.pack()
                }
            },
            Err(fault) => {
                b.stage = Stage::Failed(
                    BuildError::PayloadRead { path: fault.path, message: fault.message },
                );
                b
            },
        }
    }

    fn pack(self) -> (r: Build)
        requires
            self.apart(),
            self.resolved@.len() == self.payload@.records.len(),
            self.bootable(),
            first_reserved(self.payload@.records) is None,
            read_so_far(self.payload@.records, self.entries@),
            self.entries@.len() == self.payload@.records.len(),
        ensures
            r.wf(),
            self.packs(r),
    {
        let mut b: Build = self;
        match build_container(&b.payload, &b.entries) {
            Ok(container) => {
                b.container = Some(container);
                b.stage = Stage::Probe(0);
            },
            Err(e) => {
                b.stage = Stage::Failed(e);
            },
        }
        b
    }

    /// The temporary name to probe, where the output has the given name.
    pub fn candidate(&self, name: Option<&str>, process: u32) -> (c: String)
        requires
            self.stage is Probe,
        ensures
            c@ == temporary_text(
                match name {
                    Some(n) => Some(n@),
                    None => None,
                },
                process,
                self.stage->Probe_0,
            ),
    {
        match &self.stage {
            Stage::Probe(attempt) => temporary_name(name, process, *attempt),
            _ => String::new(),
        }
    }

    /// A temporary name, shown as `shown`, is taken or free.
    pub fn probed(self, taken: bool, shown: &str) -> (r: Build)
        requires
            self.wf(),
            self.stage is Probe,
            taken ==> self.stage->Probe_0 < u32::MAX,
        ensures
            r.wf(),
            if taken {
                r == self.at(Stage::Probe((self.stage->Probe_0 + 1) as u32))
            } else {
                &&& r.temporary@ == shown@
                &&& r == (Build { temporary: r.temporary, stage: Stage::Create, ..self })
            },
    {
        let mut b: Build = self;
        if taken {
            let attempt: u32 = match &b.stage {
                Stage::Probe(a) => *a,
                _ => 0,
            };
            b.stage = Stage::Probe(attempt + 1);
        } else {
            b.temporary = shown.to_string();
            b.stage = Stage::Create;
        }
        b
    }

    /// The temporary file has been created.
    pub fn created(self, outcome: Result<(), String>) -> (r: Build)
        requires
            self.wf(),
            self.stage is Create,
        ensures
            r.wf(),
            match outcome {
                Ok(_) => r == self.at(Stage::Write),
                Err(message) => {
                    &&& r.stage matches Stage::Discard(
                        BuildError::OutputCreate { path, message: m },
                    ) && path@ == self.temporary@ && m == message
                    &&& r == self.at(r.stage)
                },
            },
    {
        let mut b: Build = self;
        match outcome {
            Ok(_) => {
                b.stage = Stage::Write;
            },
            Err(message) => {
                let path: String = b.temporary.clone();
                b.stage = Stage::Discard(BuildError::OutputCreate { path, message });
            },
        }
        b
    }

    /// What the image writer is told.
    pub fn settings(&self) -> (s: ImageSettings)
        ensures
            s.volume_id@ == self.label@,
            !s.udf,
            self.bootable() == (s.boot is Some),
            s.boot matches Some(b) ==> {
                &&& b.image_path@ == "esp.img"@
                &&& b.write_catalog
                &&& b.load_size is None
                &&& !b.boot_info_table
                &&& !b.grub2_boot_info
                &&& !b.emulation
                &&& b.more_entries == 0
            },
    {
        image_settings(self.label.as_str(), !self.options.no_eltorito)
    }

    /// The image has been written.
    pub fn written(self, outcome: Result<(), String>) -> (r: Build)
        requires
            self.wf(),
            self.stage is Write,
        ensures
            r.wf(),
            match outcome {
                Ok(_) => r == self.at(
                    if self.bootable() {
                        Stage::Load
                    } else {
                        Stage::Measure
                    },
                ),
                Err(message) => r == self.at(Stage::Discard(BuildError::ImageBuild(message))),
            },
    {
        let mut b: Build = self;
        match outcome {
            Ok(_) => {
                b.stage = if b.options.no_eltorito {
                    Stage::Measure
                } else {
                    Stage::Load
                };
            },
            Err(message) => {
                b.stage = Stage::Discard(BuildError::ImageBuild(message));
            },
        }
        b
    }

    /// The image has been read back: the artifacts in it are hidden.
    pub fn loaded(self, outcome: Result<Vec<u8>, String>) -> (r: Build)
        requires
            self.wf(),
            self.stage is Load,
        ensures
            r.wf(),
            match outcome {
                Ok(image) => match hiding(image@).1 {
                    Ok(_) => {
                        &&& r.image@ == hiding(image@).0
                        &&& r == (Build { image: r.image, stage: Stage::Store, ..self })
                    },
                    Err(x) => {
                        &&& r.stage matches Stage::Discard(BuildError::ArtifactPatch(message))
                            && message@ == x.text(self.temporary@)
                        &&& r == self.at(r.stage)
                    },
                },
                Err(message) => r == self.at(Stage::Discard(BuildError::ArtifactPatch(message))),
            },
    {
        let mut b: Build = self;
        match outcome {
            Ok(image) => {
                let mut patched: Vec<u8> = image;
                match try_hide_engine_artifacts(&mut patched) {
                    Ok(_) => {
                        b.image = patched;
                        b.stage = Stage::Store;
                    },
                    Err(x) => {
                        let message: String = x.message(b.temporary.as_str());
                        b.stage = Stage::Discard(BuildError::ArtifactPatch(message));
                    },
                }
            },
            Err(message) => {
                b.stage = Stage::Discard(BuildError::ArtifactPatch(message));
            },
        }
        b
    }

    /// The patched image has been stored.
    pub fn stored(self, outcome: Result<(), String>) -> (r: Build)
        requires
            self.wf(),
            self.stage is Store,
        ensures
            r.wf(),
            match outcome {
                Ok(_) => r == self.at(Stage::Measure),
                Err(message) => r == self.at(Stage::Discard(BuildError::ArtifactPatch(message))),
            },
    {
        let mut b: Build = self;
        match outcome {
            Ok(_) => {
                b.stage = Stage::Measure;
            },
            Err(message) => {
                b.stage = Stage::Discard(BuildError::ArtifactPatch(message));
            },
        }
        b
    }

    /// The temporary file has been measured, where that was possible.
    pub fn measured(self, len: Option<u64>) -> (r: Build)
        requires
            self.wf(),
            self.stage is Measure,
        ensures
            r.wf(),
            r == (Build {
                sectors: match len {
                    Some(n) => n / 2048,
                    None => 0,
                },
                stage: Stage::Look,
                ..self
            }),
    {
        let mut b: Build = self;
        b.sectors = match len {
            Some(n) => sectors_in(n),
            None => 0,
        };
        b.stage = Stage::Look;
        b
    }

    /// The output exists already, or it does not.
    pub fn looked(self, exists_already: bool) -> (r: Build)
        requires
            self.wf(),
            self.stage is Look,
        ensures
            r.wf(),
            r == self.at(
                if exists_already {
                    Stage::Remove
                } else {
                    Stage::Rename
                },
            ),
    {
        let mut b: Build = self;
        b.stage = if exists_already {
            Stage::Remove
        } else {
            Stage::Rename
        };
        b
    }

    /// The output has been removed.
    pub fn removed(self, outcome: Result<(), String>) -> (r: Build)
        requires
            self.wf(),
            self.stage is Remove,
        ensures
            r.wf(),
            self.finalizes(outcome, Stage::Rename, r),
    {
        self.finalized(outcome, Stage::Rename)
    }

    /// The temporary file has been given the name of the output.
    pub fn renamed(self, outcome: Result<(), String>) -> (r: Build)
        requires
            self.wf(),
            self.stage is Rename,
        ensures
            r.wf(),
            self.finalizes(outcome, Stage::Done, r),
    {
        self.finalized(outcome, Stage::Done)
    }

    /// The build that comes of a step that touched the output.
    pub open spec fn finalizes(self, outcome: Result<(), String>, next: Stage, r: Build) -> bool {
        match outcome {
            Ok(_) => r == self.at(next),
            Err(message) => {
                &&& r.stage matches Stage::Discard(
                    BuildError::OutputFinalize { path, message: m },
                ) && path@ == self.shown@ && m == message
                &&& r == self.at(r.stage)
            },
        }
    }

    fn finalized(self, outcome: Result<(), String>, next: Stage) -> (r: Build)
        requires
            self.settled(),
            next is Rename || next is Done,
        ensures
            r.wf(),
            self.finalizes(outcome, next, r),
    {
        let mut b: Build = self;
        match outcome {
            Ok(_) => {
                b.stage = next;
            },
            Err(message) => {
                let path: String = b.shown.clone();
                b.stage = Stage::Discard(BuildError::OutputFinalize { path, message });
            },
        }
        b
    }

    /// The temporary file of a failed build has been removed, if that was
    /// possible.
    pub fn discarded(self) -> (r: Build)
        requires
            self.stage is Discard,
        ensures
            r.wf(),
            r == self.at(Stage::Failed(self.stage->Discard_0)),
    {
        let mut b: Build = self;
        if let Stage::Discard(e) = b.stage {
            b.stage = Stage::Failed(e);
        }
        b
    }

    /// What is reported of a finished build.
    pub fn finish(self) -> (r: Result<BuildSummary, BuildError>)
        requires
            self.stage is Done || self.stage is Failed,
        ensures
            match self.stage {
                Stage::Failed(e) => r == Err::<BuildSummary, BuildError>(e),
                _ => {
                    &&& r matches Ok(s)
                    &&& s.label == self.label
                    &&& s.dirs == self.payload@.directory_count
                    &&& s.files == self.payload@.records.len()
                    &&& s.payload_bytes == self.payload@.payload_bytes
                    &&& s.sectors == self.sectors
                    &&& s.bootable == self.bootable()
                },
            },
    {
        let b: Build = self;
        if let Stage::Failed(e) = b.stage {
            return Err(e);
        }
        Ok(summarize(&b.payload, b.label, !b.options.no_eltorito, b.sectors))
    }
}

/// A step that writes, removes or renames a file.
pub open spec fn touches_files(stage: Stage) -> bool {
    match stage {
        Stage::Create | Stage::Write | Stage::Store | Stage::Remove | Stage::Rename
        | Stage::Discard(_) => true,
        _ => false,
    }
}

/// No payload file is overwritten: when a file is touched, every payload file
/// has been resolved, and none of them is the output.
pub proof fn output_is_no_payload_file(b: Build)
    requires
        b.wf(),
        touches_files(b.stage),
    ensures
        b.resolved@.len() == b.payload@.records.len(),
        forall|i: int| 0 <= i < b.resolved@.len() ==> (#[trigger] b.resolved@[i])@ != b.target@,
{
}

/// A bootable image is written with a container of every payload file and every
/// payload directory, and with none of the files named like an artifact.
pub proof fn container_is_complete(b: Build)
    requires
        b.wf(),
        b.bootable(),
        touches_files(b.stage),
    ensures
        first_reserved(b.payload@.records) is None,
        b.entries@.len() == b.payload@.records.len(),
        forall|i: int|
            0 <= i < b.entries@.len() ==> (#[trigger] b.entries@[i]).0@
                == b.payload@.records[i].relative_path,
        b.container matches Some(c) && container_made(dirs_of(b.payload@), b.entries@, Ok(c)),
{
}

/// The container of a bootable image mirrors the payload: it holds every
/// payload file with the contents that were read, every payload directory, and
/// nothing else.
pub proof fn container_mirrors_payload(b: Build)
    requires
        b.wf(),
        b.bootable(),
        touches_files(b.stage),
    ensures
        b.container matches Some(c) && fat_tree(c@) matches Some(t) && {
            &&& forall|i: int|
                0 <= i < b.payload@.records.len() ==> t.dom().contains(
                    (#[trigger] b.payload@.records[i]).relative_path,
                ) && t[b.payload@.records[i].relative_path] == Some(b.entries@[i].1@)
            &&& forall|d: int|
                0 < d < b.payload@.dirs.len() ==> t.dom().contains(
                    (#[trigger] b.payload@.dirs[d]).path,
                ) && t[b.payload@.dirs[d].path] is None
            &&& forall|p: Seq<char>| #[trigger]
                t.dom().contains(p) <==> in_payload(
                    payload_paths(dirs_of(b.payload@), b.entries@),
                    p,
                )
        },
{
    let dirs = dirs_of(b.payload@);
    let ps = payload_paths(dirs, b.entries@);
    let made: Result<Vec<u8>, EspError> = Ok(b.container->0);
    container_holds_payload(dirs, b.entries@, made);
    let t = fat_tree(b.container->0@)->0;
    assert forall|i: int| 0 <= i < b.payload@.records.len() implies t.dom().contains(
        (#[trigger] b.payload@.records[i]).relative_path,
    ) && t[b.payload@.records[i].relative_path] == Some(b.entries@[i].1@) by {
        assert(b.entries@[i].0@ == b.payload@.records[i].relative_path);
    }
    assert forall|d: int| 0 < d < b.payload@.dirs.len() implies t.dom().contains(
        (#[trigger] b.payload@.dirs[d]).path,
    ) && t[b.payload@.dirs[d].path] is None by {
        assert(is_dir_at(b.payload@.dirs[d].path, ps.dirs[d - 1]));
        assert(is_dir_in(ps, b.payload@.dirs[d].path));
    }
}

/// When every payload file has been resolved, a disc that is not bootable is
/// written next. For a bootable one the payload files are read first, if there
/// are any, unless one of them is named like an artifact. The label is the one
/// asked for, else that of the output, and what was known stays as it was.
pub proof fn resolved_builds_go_on(b: Build, r: Build)
    requires
        b.resolved@.len() == b.payload@.records.len(),
        b.goes_on(r),
    ensures
        r.payload == b.payload && r.options == b.options && r.target == b.target,
        r.resolved == b.resolved && r.entries == b.entries && r.shown == b.shown,
        b.options.no_eltorito ==> r.stage == Stage::Probe(0) && r.container == b.container,
        !b.options.no_eltorito && !none_reserved(b.payload@.records, b.payload@.records.len() as int) ==> {
            &&& r.stage matches Stage::Failed(BuildError::ReservedArtifact(name))
            &&& exists|i: int|
                0 <= i < b.payload@.records.len() && name@ == (
                #[trigger] b.payload@.records[i]).relative_path
        },
        !b.options.no_eltorito && none_reserved(b.payload@.records, b.payload@.records.len() as int) && b.payload@.records.len() > 0
            ==> r.stage == Stage::Read && r.container == b.container,
        !b.options.no_eltorito && none_reserved(b.payload@.records, b.payload@.records.len() as int) && b.payload@.records.len() == 0
            ==> r.stage is Probe || (r.stage matches Stage::Failed(e) && e is ImageBuild),
        r.stage is Probe || r.stage is Read ==> match (b.options.label, b.stem) {
            (Some(l), _) => r.label@ == label_for(None, Some(l@)),
            (None, Some(s)) => r.label@ == label_for(Some(s@), None),
            (None, None) => r.label@ == "FS2ISO"@,
        },
{
    first_reserved_is_first(b.payload@.records);
}

/// Files are read in the order of the payload, and none is left out: when the
/// container is made, as many have been read as there are.
pub proof fn packing_follows_reading(b: Build, r: Build)
    requires
        b.packs(r),
    ensures
        r.payload == b.payload && r.options == b.options && r.entries == b.entries,
        r.resolved == b.resolved && r.target == b.target && r.label == b.label,
        match r.stage {
            Stage::Probe(n) => n == 0 && r.container is Some,
            Stage::Failed(e) => e is ImageBuild && r.container == b.container,
            _ => false,
        },
{
}

/// A failure at the output names the output and its cause, and the temporary
/// file is removed; a success leads on.
pub proof fn failures_at_the_output_are_told(
    b: Build,
    outcome: Result<(), String>,
    next: Stage,
    r: Build,
)
    requires
        b.finalizes(outcome, next, r),
    ensures
        outcome is Ok ==> r.stage == next,
        outcome matches Err(cause) ==> r.stage matches Stage::Discard(
            BuildError::OutputFinalize { path, message },
        ) && path@ == b.shown@ && message == cause,
        r.payload == b.payload && r.sectors == b.sectors && r.label == b.label,
{
}

} // verus!
