//! Tiles staged for an upload to the Hub.

use crate::deploy;
use crate::deploy::upload_dir;
use crate::hf_url;
use crate::hf_url::{HfOutputSpec, RepoKind};
use vstd::prelude::*;

verus! {

/// Sink for tile output to the Hub. Tiles are staged to a local directory as
/// they are rendered, then handed to the `hf` tool at commit time, so that the
/// memory held does not grow with the pyramid.
#[derive(Debug)]
pub struct HfTileSink {
    pub spec: HfOutputSpec,
    /// The staging directory.
    pub dir: String,
    /// The repo paths of the tiles staged so far, in order.
    pub staged: Vec<String>,
}

/// What a commit asks of the `hf` tool.
#[derive(Debug)]
pub enum CommitPlan {
    /// Nothing was staged: there is nothing to upload.
    Skip,
    /// Run the tool with these arguments.
    Upload { args: Vec<String> },
}

/// The arguments that upload a staging directory: buckets are synchronised with
/// deletion, below the path prefix; other repos go through the upload of large
/// folders, which keeps the paths that the tiles are staged under.
pub open spec fn commit_argv(
    dir: Seq<char>,
    repo_id: Seq<char>,
    kind: RepoKind,
    revision: Seq<char>,
    path_prefix: Seq<char>,
) -> Seq<Seq<char>> {
    match hf_url::repo_type_of(kind) {
        None => seq!["sync"@, dir, hf_url::bucket_address(repo_id, path_prefix), "--delete"@],
        Some(repo_type) => seq![
            "upload-large-folder"@,
            "--repo-type"@,
            repo_type,
            "--revision"@,
            revision,
            repo_id,
            dir,
        ],
    }
}

impl HfTileSink {
    /// A sink with nothing staged.
    pub fn new(spec: HfOutputSpec, dir: String) -> (s: HfTileSink)
        ensures
            s.spec == spec,
            s.dir@ == dir@,
            s.staged@.len() == 0,
    {
        HfTileSink { spec, dir, staged: Vec::new() }
    }

    /// Records a tile as staged and returns the path to write it to: its repo
    /// path below the staging directory.
    pub fn upload_tile(&mut self, repo_path: String) -> (local_path: String)
        ensures
            local_path@ == final(self).dir@ + "/"@ + repo_path@,
            final(self).spec == old(self).spec,
            final(self).dir == old(self).dir,
            hf_url::strings(final(self).staged@) == hf_url::strings(old(self).staged@).push(
                repo_path@,
            ),
    {
        let local_path = self.dir.clone().concat("/").concat(repo_path.as_str());
        self.staged.push(repo_path);
        assert(hf_url::strings(self.staged@) =~= hf_url::strings(old(self).staged@).push(
            repo_path@,
        ));
        local_path
    }

    /// What is left to do when all tiles are staged: push everything to the Hub
    /// in one upload, if there is anything.
    pub fn commit(self) -> (plan: CommitPlan)
        ensures
            match plan {
                CommitPlan::Skip => self.staged@.len() == 0,
                CommitPlan::Upload { args } => self.staged@.len() > 0 && hf_url::strings(args@)
                    == commit_argv(
                    self.dir@,
                    self.spec.repo_id@,
                    self.spec.kind,
                    self.spec.revision@,
                    self.spec.path_prefix@,
                ),
            },
    {
        if self.staged.len() == 0 {
            return CommitPlan::Skip;
        }
        match self.spec.kind.cli_repo_type() {
            Err(_) => {
                let args = upload_dir(
                    self.dir.as_str(),
                    self.spec.repo_id.as_str(),
                    self.spec.kind,
                    self.spec.path_prefix.as_str(),
                );
                CommitPlan::Upload { args }
            },
            Ok(repo_type) => {
                let mut args: Vec<String> = Vec::new();
                args.push("upload-large-folder".to_owned());
                args.push("--repo-type".to_owned());
                args.push(repo_type.to_owned());
                args.push("--revision".to_owned());
                args.push(self.spec.revision.clone());
                args.push(self.spec.repo_id.clone());
                args.push(self.dir);
                assert(hf_url::strings(args@) =~= commit_argv(
                    self.dir@,
                    self.spec.repo_id@,
                    self.spec.kind,
                    self.spec.revision@,
                    self.spec.path_prefix@,
                ));
                CommitPlan::Upload { args }
            },
        }
    }
}

/// A bucket receives the same upload from a sink as from a directory.
pub proof fn bucket_commit_is_directory_upload(
    dir: Seq<char>,
    repo_id: Seq<char>,
    revision: Seq<char>,
    path_prefix: Seq<char>,
)
    ensures
        commit_argv(dir, repo_id, RepoKind::Bucket, revision, path_prefix)
            == deploy::upload_dir_argv(dir, repo_id, RepoKind::Bucket, path_prefix),
{
}

} // verus!
