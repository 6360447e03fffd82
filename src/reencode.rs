use vstd::prelude::*;
use vstd::string::*;
use crate::catalog::{
    Catalog, CatalogEntry, Claim, StoreError, entry_at, has_path, index_of, lemma_index_of_unique,
    lemma_push_frame, lemma_remove_frame, lemma_update_frame, updated_entry, with_claim,
};
use crate::path::{with_extension, with_extension_of};
use crate::scan::{Operation, ScannedFile};
use crate::text::text_eq;

verus! {

/// Where a source file is copied before the encoder reads it.
pub open spec fn staging_input_of() -> Seq<char> {
    "/tmp/in"@
}

/// What the encoder writes to: this path with the target extension.
pub open spec fn staging_output_base() -> Seq<char> {
    "/tmp/converting.x"@
}

/// The arguments the encoder is run with: overwrite, warnings only, the
/// staged input, the target video codec, AAC audio, no banner or progress, and
/// the staged output.
pub open spec fn encoder_args_of(input: Seq<char>, codec: Seq<char>, output: Seq<char>) -> Seq<
    Seq<char>,
> {
    seq![
        "-y"@,
        "-loglevel"@,
        "warning"@,
        "-i"@,
        input,
        "-c:v"@,
        codec,
        "-c:a"@,
        "aac"@,
        "-hide_banner"@,
        "-nostats"@,
        output,
    ]
}

/// Everything one conversion touches on disk, and how the encoder is run.
#[derive(Debug)]
pub struct ConversionPlan {
    pub source_path: String,
    /// The source's path with the target extension.
    pub target_path: String,
    pub staging_input: String,
    pub staging_output: String,
    pub encoder_args: Vec<String>,
}

/// What follows an encoder run.
#[derive(Clone, Copy, Debug, PartialEq, Eq, Structural)]
pub struct Completion {
    /// Copy the staged output to the target path and catalog it there.
    pub install_output: bool,
    /// Delete the source file, the staged copies and the source's entry.
    pub remove_source: bool,
    /// Keep the entry claimed until the pass ends.
    pub hold_claim: bool,
}

pub open spec fn plan_matches(p: ConversionPlan, source: Seq<char>, ext: Seq<char>, codec: Seq<char>) -> bool {
    &&& p.source_path@ == source
    &&& p.target_path@ == with_extension_of(source, ext)
    &&& p.staging_input@ == staging_input_of()
    &&& p.staging_output@ == with_extension_of(staging_output_base(), ext)
    &&& p.encoder_args@.map_values(|a: String| a@) == encoder_args_of(
        staging_input_of(),
        codec,
        with_extension_of(staging_output_base(), ext),
    )
}

/// The completion of a conversion of `p`: on success the output is installed,
/// and the source and staged files go when the target path differs from the
/// source path; on failure nothing moves and the claim is held.
pub open spec fn completion_of(p: ConversionPlan, success: bool) -> Completion {
    if success {
        Completion {
            install_output: true,
            remove_source: p.target_path@ != p.source_path@,
            hold_claim: false,
        }
    } else {
        Completion { install_output: false, remove_source: false, hold_claim: true }
    }
}

/// The plan for converting the file at `source` to extension `ext` and
/// video codec `codec`.
pub fn plan_conversion(source: &str, ext: &str, codec: &str) -> (r: ConversionPlan)
    ensures
        plan_matches(r, source@, ext@, codec@),
{
    let target_path = with_extension(source, ext);
    let staging_input = String::from_str("/tmp/in");
    let staging_output = with_extension("/tmp/converting.x", ext);
    let mut args: Vec<String> = Vec::new();
    args.push(String::from_str("-y"));
    args.push(String::from_str("-loglevel"));
    args.push(String::from_str("warning"));
    args.push(String::from_str("-i"));
    args.push(staging_input.clone());
    args.push(String::from_str("-c:v"));
    args.push(String::from_str(codec));
    args.push(String::from_str("-c:a"));
    args.push(String::from_str("aac"));
    args.push(String::from_str("-hide_banner"));
    args.push(String::from_str("-nostats"));
    args.push(staging_output.clone());
    assert(args@.map_values(|a: String| a@) =~= encoder_args_of(
        staging_input_of(),
        codec@,
        with_extension_of(staging_output_base(), ext@),
    ));
    ConversionPlan {
        source_path: String::from_str(source),
        target_path,
        staging_input,
        staging_output,
        encoder_args: args,
    }
}

/// What to do once the encoder has run on the plan `p`.
pub fn complete(p: &ConversionPlan, success: bool) -> (r: Completion)
    ensures
        r == completion_of(*p, success),
{
    if success {
        Completion {
            install_output: true,
            remove_source: !text_eq(p.target_path.as_str(), p.source_path.as_str()),
            hold_claim: false,
        }
    } else {
        Completion { install_output: false, remove_source: false, hold_claim: true }
    }
}

/// One transcode pass: claims are taken one at a time until none is left.
/// An entry whose conversion failed stays claimed for the rest of the pass,
/// so that the pass does not pick it again, and is released when the pass
/// ends, so that the next pass retries it.
pub struct ReencodePass {
    held: Vec<String>,
    done: bool,
}

impl ReencodePass {
    pub closed spec fn held(&self) -> Seq<Seq<char>> {
        self.held@.map_values(|p: String| p@)
    }

    pub closed spec fn done(&self) -> bool {
        self.done
    }

    pub fn new() -> (r: ReencodePass)
        ensures
            r.held() == Seq::<Seq<char>>::empty(),
            !r.done(),
    {
        let held: Vec<String> = Vec::new();
        assert(held@.map_values(|p: String| p@) =~= Seq::<Seq<char>>::empty());
        ReencodePass { held, done: false }
    }

    pub fn is_done(&self) -> (r: bool)
        ensures
            r == self.done(),
    {
        self.done
    }

    /// Takes in the outcome of a claim attempt: with no claim the pass is
    /// over; with one, returns the plan for converting the claimed file.
    pub fn on_claim(&mut self, claim: Option<&Claim>, ext: &str, codec: &str) -> (r: Option<
        ConversionPlan,
    >)
        ensures
            final(self).held() == old(self).held(),
            claim is None ==> r is None && final(self).done(),
            claim is Some ==> r is Some && plan_matches(r->Some_0, claim->Some_0.path@, ext@, codec@)
                && final(self).done() == old(self).done(),
    {
        match claim {
            None => {
                self.done = true;
                None
            },
            Some(c) => Some(plan_conversion(c.path.as_str(), ext, codec)),
        }
    }

    /// Takes in the encoder's verdict on the plan `p` and says what follows;
    /// a failed source is held until the pass ends.
    pub fn on_encoded(&mut self, p: &ConversionPlan, success: bool) -> (r: Completion)
        ensures
            r == completion_of(*p, success),
            final(self).done() == old(self).done(),
            success ==> final(self).held() == old(self).held(),
            !success ==> final(self).held() == old(self).held().push(p.source_path@),
    {
        let r = complete(p, success);
        if !success {
            let ghost before = self.held@;
            self.held.push(p.source_path.clone());
            assert(self.held@.map_values(|q: String| q@) =~= before.map_values(|q: String| q@).push(
                p.source_path@,
            ));
        }
        r
    }

    /// The entries to release now that the pass is over: those held after a
    /// failed conversion.
    pub fn releases(&self) -> (r: &Vec<String>)
        ensures
            r@.map_values(|p: String| p@) == self.held(),
    {
        &self.held
    }
}

/// Whether storing a row for `path` with write `op` is accepted by the catalog
/// `s`: an insert needs a new path, an update a known one.
pub open spec fn store_accepts(op: Option<Operation>, s: Seq<CatalogEntry>, path: Seq<char>) -> bool {
    match op {
        Some(Operation::Insert) => !has_path(s, path),
        Some(Operation::Update) => has_path(s, path),
        None => true,
    }
}

/// A found entry with its claim released.
pub open spec fn released(o: Option<CatalogEntry>) -> Option<CatalogEntry> {
    match o {
        Some(e) => Some(with_claim(e, false)),
        None => None,
    }
}

/// Folds a finished conversion into the catalog: stores the converted file's
/// row as planned, leaves it unclaimed, and, when it lives at another path than
/// the source, deletes the source's entry. Entries of every other path stay as
/// they were. Refused, with nothing changed, when the planned write does not
/// fit the catalog.
pub fn finish_conversion(catalog: &mut Catalog, source: &str, converted: &ScannedFile) -> (r: Result<
    (),
    StoreError,
>)
    requires
        old(catalog).wf(),
    ensures
        final(catalog).wf(),
        r is Ok <==> store_accepts(converted.operation, old(catalog).view(), converted.entry.path@),
        r is Err ==> final(catalog).view() == old(catalog).view(),
        r is Ok && converted.operation is Some ==> entry_at(
            final(catalog).view(),
            converted.entry.path@,
        ) == Some(with_claim(converted.entry, false)),
        r is Ok && converted.operation is None ==> entry_at(
            final(catalog).view(),
            converted.entry.path@,
        ) == released(entry_at(old(catalog).view(), converted.entry.path@)),
        r is Ok && source@ != converted.entry.path@ ==> !has_path(final(catalog).view(), source@),
        r is Ok ==> forall|p: Seq<char>|
            p != converted.entry.path@ && p != source@ ==> #[trigger] entry_at(
                final(catalog).view(),
                p,
            ) == entry_at(old(catalog).view(), p),
{
    let ghost s0 = catalog.view();
    let ghost target_v = converted.entry.path@;
    let ghost e = converted.entry;
    let stored = converted.store(catalog);
    if let Err(err) = stored {
        return Err(err);
    }
    let ghost s1 = catalog.view();
    let target = converted.entry.path.as_str();
    // What the store left under the target path, and nothing else changed.
    let ghost found1 = match converted.operation {
        Some(Operation::Insert) => Some(with_claim(e, false)),
        Some(Operation::Update) => Some(updated_entry(s0[index_of(s0, target_v)], e)),
        None => entry_at(s0, target_v),
    };
    proof {
        match converted.operation {
            Some(Operation::Insert) => {
                lemma_push_frame(s0, with_claim(e, false), target_v);
                assert forall|p: Seq<char>| p != target_v implies #[trigger] entry_at(s1, p)
                    == entry_at(s0, p) by {
                    lemma_push_frame(s0, with_claim(e, false), p);
                }
            },
            Some(Operation::Update) => {
                let k = index_of(s0, target_v);
                assert(s0[k].path@ == target_v);
                let u = updated_entry(s0[k], e);
                lemma_update_frame(s0, k, u, target_v);
                lemma_index_of_unique(s1, target_v, k);
                assert forall|p: Seq<char>| p != target_v implies #[trigger] entry_at(s1, p)
                    == entry_at(s0, p) by {
                    lemma_update_frame(s0, k, u, p);
                }
            },
            None => {},
        }
        assert(entry_at(s1, target_v) == found1);
    }
    catalog.release(target);
    let ghost s2 = catalog.view();
    proof {
        if has_path(s1, target_v) {
            let k = index_of(s1, target_v);
            assert(s1[k].path@ == target_v);
            lemma_update_frame(s1, k, with_claim(s1[k], false), target_v);
            lemma_index_of_unique(s2, target_v, k);
            assert forall|p: Seq<char>| p != target_v implies #[trigger] entry_at(s2, p)
                == entry_at(s1, p) by {
                lemma_update_frame(s1, k, with_claim(s1[k], false), p);
            }
        }
        assert(entry_at(s2, target_v) == released(found1));
    }
    if !text_eq(source, target) {
        let ghost had = has_path(s2, source@);
        let ghost j = index_of(s2, source@);
        catalog.delete(source);
        proof {
            if had {
                assert(s2[j].path@ == source@);
                lemma_remove_frame(s2, j, target_v);
                assert forall|p: Seq<char>| p != source@ implies #[trigger] entry_at(
                    catalog.view(),
                    p,
                ) == entry_at(s2, p) by {
                    lemma_remove_frame(s2, j, p);
                }
            }
        }
    }
    Ok(())
}

} // verus!
