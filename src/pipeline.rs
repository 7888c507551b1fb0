use vstd::prelude::*;
use crate::gallery::{gallery_paths, listing_views, path_texts, refresh, ArtifactRecord};
use crate::generator::PipelineError;

verus! {

/// What a background generation hands back to the interactive loop, once per request.
pub enum GenerationOutcome {
    /// The image service answered with these bytes.
    Success(Vec<u8>),
    /// The generation failed.
    Failure(PipelineError),
}

/// Which step of the pipeline an alert reports on.
#[derive(Debug, Clone, Copy, PartialEq, Eq, Structural)]
pub enum AlertKind {
    /// The image could not be generated.
    Generation,
    /// The image could not be saved.
    Saving,
}

/// What the interactive loop does next.
pub enum Action {
    /// Write these bytes as a new file of the output directory.
    Save(Vec<u8>),
    /// Show the user a notice of this failure.
    Alert(AlertKind, PipelineError),
    /// Display the image saved at this path.
    Show(String),
}

/// The interactive side of the pipeline: the gallery it shows, newest first.
pub struct Session {
    gallery: Vec<String>,
}

impl View for Session {
    type V = Seq<Seq<char>>;

    closed spec fn view(&self) -> Seq<Seq<char>> {
        path_texts(self.gallery@)
    }
}

/// The action for a generation outcome: a successful one is saved, a failed one reported.
pub fn action_for_outcome(outcome: GenerationOutcome) -> (a: Action)
    ensures
        match outcome {
            GenerationOutcome::Success(bytes) => a is Save && a->Save_0@ == bytes@,
            GenerationOutcome::Failure(e) => a == Action::Alert(AlertKind::Generation, e),
        },
        outcome is Failure ==> !(a is Save),
{
    match outcome {
        GenerationOutcome::Success(bytes) => Action::Save(bytes),
        GenerationOutcome::Failure(e) => Action::Alert(AlertKind::Generation, e),
    }
}

impl Session {
    /// The session at start-up, showing the gallery of the output directory's `listing`.
    pub fn start(listing: Option<Vec<ArtifactRecord>>) -> (s: Session)
        ensures
            s@ == gallery_paths(listing_views(listing)),
    {
        Session { gallery: refresh(listing) }
    }

    /// The paths shown in the gallery, newest first.
    pub fn gallery(&self) -> (r: &Vec<String>)
        ensures
            path_texts(r@) == self@,
    {
        &self.gallery
    }

    /// Takes the result of saving an image. On success the gallery is rebuilt from `listing`,
    /// the output directory as listed after the save, and the saved image is shown; on
    /// failure the gallery stays as it was and the failure is reported.
    pub fn on_saved(&mut self, saved: Result<String, PipelineError>, listing: Option<Vec<ArtifactRecord>>) -> (a: Action)
        ensures
            match saved {
                Ok(path) => {
                    &&& final(self)@ == gallery_paths(listing_views(listing))
                    &&& a is Show
                    &&& a->Show_0@ == path@
                },
                Err(e) => {
                    &&& final(self)@ == old(self)@
                    &&& a == Action::Alert(AlertKind::Saving, e)
                },
            },
    {
        match saved {
            Ok(path) => {
                self.gallery = refresh(listing);
                Action::Show(path)
            },
            Err(e) => Action::Alert(AlertKind::Saving, e),
        }
    }
}

} // verus!
