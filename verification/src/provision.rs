//! Provisioning: what has to be fetched and built before a model can run, and under which names.
//!
//! A model's tokenizer, configuration and network come from a hub and are kept in a directory of
//! their own. Some models are pinned to a revision. Compiled engines can be kept in a remote store,
//! under a key made of the GPU architecture and the shape of the bucket.

use vstd::prelude::*;
use vstd::string::StringExecFns;

use crate::engine::{config_problem, detect_hidden_dim, hidden_dim_in, DEFAULT_HIDDEN_DIM};
use crate::error::Error;
use crate::number::{decimal, decimal_is_digits, decimal_reads_back, to_decimal};
use crate::text::{
    file_part, last_part, replace_char, replaced_char, replacing_goes_character_by_character,
    same_text, trim, trim_end_matches, trimmed, without_trailing,
};

verus! {

// The models.

/// Where the files of a model come from.
pub struct ModelInfo {
    pub hf_repo: String,
    pub hf_revision: String,
    pub onnx_repo: String,
    pub onnx_revision: String,
    pub onnx_path: String,
    /// The width of the model, if it is known before its configuration is read.
    pub hidden_dim: Option<usize>,
}

/// The contents of a [`ModelInfo`].
pub struct ModelView {
    pub hf_repo: Seq<char>,
    pub hf_revision: Seq<char>,
    pub onnx_repo: Seq<char>,
    pub onnx_revision: Seq<char>,
    pub onnx_path: Seq<char>,
    pub hidden_dim: Option<usize>,
}

impl View for ModelInfo {
    type V = ModelView;

    open spec fn view(&self) -> ModelView {
        ModelView {
            hf_repo: self.hf_repo@,
            hf_revision: self.hf_revision@,
            onnx_repo: self.onnx_repo@,
            onnx_revision: self.onnx_revision@,
            onnx_path: self.onnx_path@,
            hidden_dim: self.hidden_dim,
        }
    }
}

/// A model whose network lies where all of them lie.
pub open spec fn pinned(
    hf_repo: Seq<char>,
    hf_revision: Seq<char>,
    onnx_repo: Seq<char>,
    onnx_revision: Seq<char>,
    hidden_dim: usize,
) -> ModelView {
    ModelView {
        hf_repo,
        hf_revision,
        onnx_repo,
        onnx_revision,
        onnx_path: "onnx/model.onnx"@,
        hidden_dim: Some(hidden_dim),
    }
}

fn model_info(
    hf_repo: &str,
    hf_revision: &str,
    onnx_repo: &str,
    onnx_revision: &str,
    hidden_dim: usize,
) -> (r: ModelInfo)
    ensures
        r@ == pinned(hf_repo@, hf_revision@, onnx_repo@, onnx_revision@, hidden_dim),
{
    ModelInfo {
        hf_repo: hf_repo.to_owned(),
        hf_revision: hf_revision.to_owned(),
        onnx_repo: onnx_repo.to_owned(),
        onnx_revision: onnx_revision.to_owned(),
        onnx_path: "onnx/model.onnx".to_owned(),
        hidden_dim: Some(hidden_dim),
    }
}

/// The models that are pinned to a revision.
pub open spec fn known_model(model: Seq<char>) -> Option<ModelView> {
    if model == "intfloat/multilingual-e5-small"@ {
        Some(
            pinned(
                "intfloat/multilingual-e5-small"@,
                "614241f622f53c4eeff9890bdc4f31cfecc418b3"@,
                "Xenova/multilingual-e5-small"@,
                "761b726dd34fb83930e26aab4e9ac3899aa1fa78"@,
                384,
            ),
        )
    } else if model == "intfloat/multilingual-e5-base"@ {
        Some(
            pinned(
                "intfloat/multilingual-e5-base"@,
                "d128750597153bb5987e10b1c3493a34e5a4502a"@,
                "Xenova/multilingual-e5-base"@,
                "1ec9243030a27d1a115d5c340572074c125b58b2"@,
                768,
            ),
        )
    } else if model == "intfloat/multilingual-e5-large"@ {
        Some(
            pinned(
                "intfloat/multilingual-e5-large"@,
                "3d7cfbdacd47fdda877c5cd8a79fbcc4f2a574f3"@,
                "Xenova/multilingual-e5-large"@,
                "00fc3aeb3dbb95842de2ac1961d33c6319acf57b"@,
                1024,
            ),
        )
    } else if model == "intfloat/e5-small-v2"@ {
        Some(
            pinned(
                "intfloat/e5-small-v2"@,
                "ffb93f3bd4047442299a41ebb6fa998a38507c52"@,
                "Xenova/e5-small-v2"@,
                "02af79985278377e65c724a76275707cb0333c70"@,
                384,
            ),
        )
    } else if model == "intfloat/e5-base-v2"@ {
        Some(
            pinned(
                "intfloat/e5-base-v2"@,
                "f52bf8ec8c7124536f0efb74aca902b2995e5bcd"@,
                "Xenova/e5-base-v2"@,
                "21f8d0e36fdfe76e6a023802dfb293fc6d750ad1"@,
                768,
            ),
        )
    } else if model == "intfloat/e5-large-v2"@ {
        Some(
            pinned(
                "intfloat/e5-large-v2"@,
                "f169b11e22de13617baa190a028a32f3493550b6"@,
                "Xenova/e5-large-v2"@,
                "840fd2207f68e253697ed85392a482ff7657ad11"@,
                1024,
            ),
        )
    } else {
        None
    }
}

/// What an option holds.
pub open spec fn model_view(info: Option<ModelInfo>) -> Option<ModelView> {
    match info {
        Some(info) => Some(info@),
        None => None,
    }
}

/// Where the files of a model come from, if it is pinned to a revision.
pub fn resolve_model_info(model: &str) -> (r: Option<ModelInfo>)
    ensures
        model_view(r) == known_model(model@),
{
    if same_text(model, "intfloat/multilingual-e5-small") {
        Some(
            model_info(
                "intfloat/multilingual-e5-small",
                "614241f622f53c4eeff9890bdc4f31cfecc418b3",
                "Xenova/multilingual-e5-small",
                "761b726dd34fb83930e26aab4e9ac3899aa1fa78",
                384,
            ),
        )
    } else if same_text(model, "intfloat/multilingual-e5-base") {
        Some(
            model_info(
                "intfloat/multilingual-e5-base",
                "d128750597153bb5987e10b1c3493a34e5a4502a",
                "Xenova/multilingual-e5-base",
                "1ec9243030a27d1a115d5c340572074c125b58b2",
                768,
            ),
        )
    } else if same_text(model, "intfloat/multilingual-e5-large") {
        Some(
            model_info(
                "intfloat/multilingual-e5-large",
                "3d7cfbdacd47fdda877c5cd8a79fbcc4f2a574f3",
                "Xenova/multilingual-e5-large",
                "00fc3aeb3dbb95842de2ac1961d33c6319acf57b",
                1024,
            ),
        )
    } else if same_text(model, "intfloat/e5-small-v2") {
        Some(
            model_info(
                "intfloat/e5-small-v2",
                "ffb93f3bd4047442299a41ebb6fa998a38507c52",
                "Xenova/e5-small-v2",
                "02af79985278377e65c724a76275707cb0333c70",
                384,
            ),
        )
    } else if same_text(model, "intfloat/e5-base-v2") {
        Some(
            model_info(
                "intfloat/e5-base-v2",
                "f52bf8ec8c7124536f0efb74aca902b2995e5bcd",
                "Xenova/e5-base-v2",
                "21f8d0e36fdfe76e6a023802dfb293fc6d750ad1",
                768,
            ),
        )
    } else if same_text(model, "intfloat/e5-large-v2") {
        Some(
            model_info(
                "intfloat/e5-large-v2",
                "f169b11e22de13617baa190a028a32f3493550b6",
                "Xenova/e5-large-v2",
                "840fd2207f68e253697ed85392a482ff7657ad11",
                1024,
            ),
        )
    } else {
        None
    }
}

/// A pinned model's tokenizer and configuration come from the repository of its own name, and its width
/// is one of three.
pub proof fn known_model_is_its_own_repo(model: Seq<char>)
    ensures
        known_model(model) matches Some(info) ==> {
            &&& info.hf_repo == model
            &&& info.onnx_path == "onnx/model.onnx"@
            &&& info.hidden_dim == Some(384usize) || info.hidden_dim == Some(768usize)
                || info.hidden_dim == Some(1024usize)
        },
{
}

/// A model that is not pinned: its tokenizer and configuration come from the repository of its own
/// name, its network from the one that holds networks, and its width from its configuration.
pub open spec fn unpinned(model: Seq<char>) -> ModelView {
    ModelView {
        hf_repo: model,
        hf_revision: "main"@,
        onnx_repo: "Xenova/"@ + last_part(model),
        onnx_revision: "main"@,
        onnx_path: "onnx/model.onnx"@,
        hidden_dim: None,
    }
}

/// Where the files of a model come from, if its name is one.
pub open spec fn model_source(model: Seq<char>) -> Option<ModelView> {
    if known_model(model) is Some {
        known_model(model)
    } else if last_part(model).len() > 0 {
        Some(unpinned(model))
    } else {
        None
    }
}

/// Where the files of a model come from, if its name is one.
pub fn find_model_info(model: &str) -> (r: Option<ModelInfo>)
    ensures
        model_view(r) == model_source(model@),
{
    let known = resolve_model_info(model);
    if known.is_some() {
        return known;
    }
    let name = file_part(model);
    if name.as_str().is_empty() {
        return None;
    }
    let mut onnx_repo = "Xenova/".to_owned();
    onnx_repo.append(name.as_str());
    Some(
        ModelInfo {
            hf_repo: model.to_owned(),
            hf_revision: "main".to_owned(),
            onnx_repo,
            onnx_revision: "main".to_owned(),
            onnx_path: "onnx/model.onnx".to_owned(),
            hidden_dim: None,
        },
    )
}

/// The width to export a model with: the one of its info, or else what its configuration says.
pub fn export_dim(info: &ModelInfo, config_json: Option<Result<String, String>>) -> (r: Result<
    usize,
    Error,
>)
    ensures
        match (info@.hidden_dim, config_json) {
            (Some(dim), _) => r == Ok::<usize, Error>(dim),
            (None, None) => r == Ok::<usize, Error>(DEFAULT_HIDDEN_DIM),
            (None, Some(Err(e))) => r matches Err(Error::Model(msg)) && msg@ == config_problem(e@),
            (None, Some(Ok(content))) => r == Ok::<usize, Error>(hidden_dim_in(content@)),
        },
{
    match info.hidden_dim {
        Some(dim) => Ok(dim),
        None => detect_hidden_dim(config_json),
    }
}

/// What is said of a model whose name is none.
pub open spec fn unknown_model(model: Seq<char>) -> Seq<char> {
    "unknown model '"@ + model + "'"@
}

/// The name of a model's directory: the model's name without slashes.
pub open spec fn slug(model: Seq<char>) -> Seq<char> {
    replaced_char(model, '/', "--"@)
}

/// The name of a model's directory.
pub fn model_slug(model: &str) -> (r: String)
    ensures
        r@ == slug(model@),
{
    replace_char(model, '/', "--")
}

/// A directory's name holds no slash.
pub proof fn slug_has_no_slash(model: Seq<char>)
    ensures
        !slug(model).contains('/'),
    decreases model.len(),
{
    reveal_strlit("--");
    if model.len() > 0 {
        slug_has_no_slash(model.drop_last());
        let before = slug(model.drop_last());
        assert forall|i: int| 0 <= i < slug(model).len() implies slug(model)[i] != '/' by {
            if i < before.len() {
                assert(before[i] != '/');
            }
        }
    }
}

/// Which files of a model are there and not empty.
pub struct PresentFiles {
    pub onnx: bool,
    pub tokenizer: bool,
    pub config: bool,
    pub vocab_cache: bool,
}

impl PresentFiles {
    /// Whether all are there.
    pub open spec fn all(self) -> bool {
        self.onnx && self.tokenizer && self.config && self.vocab_cache
    }
}

/// Says what a model needs: nothing if its files are there, else the files that its info tells of.
/// It is an error if the files are not there and the name is none.
pub fn ensure_model(model: &str, present: PresentFiles) -> (r: Result<Option<ModelInfo>, Error>)
    ensures
        match r {
            Ok(None) => present.all(),
            Ok(Some(info)) => !present.all() && model_source(model@) == Some(info@),
            Err(Error::Model(msg)) => {
                &&& !present.all()
                &&& model_source(model@) is None
                &&& msg@ == unknown_model(model@)
            },
            Err(_) => false,
        },
{
    if present.onnx && present.tokenizer && present.config && present.vocab_cache {
        return Ok(None);
    }
    match find_model_info(model) {
        Some(info) => Ok(Some(info)),
        None => {
            let mut msg = "unknown model '".to_owned();
            msg.append(model);
            msg.append("'");
            Err(Error::Model(msg))
        },
    }
}

// Downloads.

/// A file to download, and the name under which it is kept.
pub struct Download {
    pub repo: String,
    pub revision: String,
    pub path: String,
    pub name: &'static str,
    /// What the download is called in messages.
    pub what: &'static str,
}

/// The files to download for a model.
pub fn downloads(info: &ModelInfo) -> (r: Vec<Download>)
    ensures
        r@.len() == 3,
        r@[0].repo@ == info@.hf_repo && r@[0].revision@ == info@.hf_revision,
        r@[0].path@ == "tokenizer.json"@ && r@[0].name@ == "tokenizer.json"@,
        r@[0].what@ == "tokenizer download"@,
        r@[1].repo@ == info@.hf_repo && r@[1].revision@ == info@.hf_revision,
        r@[1].path@ == "config.json"@ && r@[1].name@ == "config.json"@,
        r@[1].what@ == "config download"@,
        r@[2].repo@ == info@.onnx_repo && r@[2].revision@ == info@.onnx_revision,
        r@[2].path@ == info@.onnx_path && r@[2].name@ == "model_raw.onnx"@,
        r@[2].what@ == "ONNX download"@,
{
    let mut list: Vec<Download> = Vec::new();
    list.push(
        Download {
            repo: info.hf_repo.clone(),
            revision: info.hf_revision.clone(),
            path: "tokenizer.json".to_owned(),
            name: "tokenizer.json",
            what: "tokenizer download",
        },
    );
    list.push(
        Download {
            repo: info.hf_repo.clone(),
            revision: info.hf_revision.clone(),
            path: "config.json".to_owned(),
            name: "config.json",
            what: "config download",
        },
    );
    list.push(
        Download {
            repo: info.onnx_repo.clone(),
            revision: info.onnx_revision.clone(),
            path: info.onnx_path.clone(),
            name: "model_raw.onnx",
            what: "ONNX download",
        },
    );
    list
}

/// The address of a file in a repository.
pub open spec fn url_of(repo: Seq<char>, revision: Seq<char>, path: Seq<char>) -> Seq<char> {
    "https://huggingface.co/"@ + repo + "/resolve/"@ + revision + "/"@ + path
}

/// The address of a file in a repository.
pub fn download_url(repo: &str, revision: &str, path: &str) -> (r: String)
    ensures
        r@ == url_of(repo@, revision@, path@),
{
    let mut url = "https://huggingface.co/".to_owned();
    url.append(repo);
    url.append("/resolve/");
    url.append(revision);
    url.append("/");
    url.append(path);
    url
}

/// What to do about a file before it is made.
#[derive(Clone, Copy, PartialEq, Eq, Structural)]
pub enum FileStep {
    /// It is there: nothing is to be done.
    Keep,
    /// It is there but empty: it is removed, then made.
    Replace,
    /// It is not there: it is made.
    Make,
}

/// What to do about a file of the given size, if it is there.
pub fn file_step(size: Option<u64>) -> (r: FileStep)
    ensures
        r == (match size {
            Some(size) => if size > 0 {
                FileStep::Keep
            } else {
                FileStep::Replace
            },
            None => FileStep::Make,
        }),
{
    match size {
        Some(size) => if size > 0 {
            FileStep::Keep
        } else {
            FileStep::Replace
        },
        None => FileStep::Make,
    }
}

/// How the run of an outside tool ended.
pub enum ToolRun {
    /// It could not be run, for the reason given.
    NotRun(String),
    /// It failed, and wrote this to its error output.
    Failed(String),
    /// It succeeded.
    Succeeded,
}

/// What is wrong with a download, if anything is. `size` is the size of the file that it made.
pub open spec fn download_problem(url: Seq<char>, run: ToolRun, size: u64) -> Option<Seq<char>> {
    match run {
        ToolRun::NotRun(e) => Some("failed to run curl: "@ + e@),
        ToolRun::Failed(stderr) => Some(
            "download failed: "@ + url + " — "@ + trimmed(stderr@),
        ),
        ToolRun::Succeeded => if size == 0 {
            Some("download produced empty file: "@ + url)
        } else {
            None
        },
    }
}

/// Says whether a download went well. What it made is to be removed if it did not but the tool was
/// run.
pub fn download_verdict(url: &str, run: &ToolRun, size: u64) -> (r: Result<(), Error>)
    ensures
        match r {
            Ok(()) => download_problem(url@, *run, size) is None,
            Err(Error::Model(msg)) => download_problem(url@, *run, size) == Some(msg@),
            Err(_) => false,
        },
{
    match run {
        ToolRun::NotRun(e) => {
            let mut msg = "failed to run curl: ".to_owned();
            msg.append(e.as_str());
            Err(Error::Model(msg))
        },
        ToolRun::Failed(stderr) => {
            let mut msg = "download failed: ".to_owned();
            msg.append(url);
            msg.append(" — ");
            msg.append(trim(stderr.as_str()).as_str());
            Err(Error::Model(msg))
        },
        ToolRun::Succeeded => {
            if size == 0 {
                let mut msg = "download produced empty file: ".to_owned();
                msg.append(url);
                Err(Error::Model(msg))
            } else {
                Ok(())
            }
        },
    }
}

// Jobs that run side by side.

/// How a job ended.
pub enum JobEnd {
    Done,
    Failed(Error),
    Panicked,
}

/// A job with what it is called in messages.
pub struct Job {
    pub what: &'static str,
    pub end: JobEnd,
}

/// The index of the first job that was not done, or the number of jobs if all were.
pub open spec fn first_undone(jobs: Seq<Job>) -> int
    decreases jobs.len(),
{
    if jobs.len() == 0 {
        0
    } else if first_undone(jobs.drop_last()) < jobs.len() - 1 {
        first_undone(jobs.drop_last())
    } else if jobs.last().end is Done {
        jobs.len() as int
    } else {
        jobs.len() - 1
    }
}

/// Says whether all jobs were done. The error is that of the first one that was not.
pub fn settle(jobs: Vec<Job>) -> (r: Result<(), Error>)
    ensures
        ({
            let i = first_undone(jobs@);
            if i == jobs@.len() {
                r == Ok::<(), Error>(())
            } else {
                match jobs@[i].end {
                    JobEnd::Done => false,
                    JobEnd::Failed(e) => r == Err::<(), Error>(e),
                    JobEnd::Panicked => {
                        &&& r matches Err(Error::Model(msg))
                        &&& msg@ == jobs@[i].what@ + " thread panicked"@
                    },
                }
            }
        }),
{
    let ghost all = jobs@;
    let mut rest = jobs;
    let n: usize = rest.len();
    assert(all.skip(0) == all);
    assert(all.take(0) == Seq::<Job>::empty());
    for i in 0..n
        invariant
            all == jobs@,
            n == all.len(),
            rest@ == all.skip(i as int),
            first_undone(all.take(i as int)) == i,
    {
        let job = rest.remove(0);
        assert(job == all[i as int]);
        assert(rest@ == all.skip(i + 1));
        assert(all.take(i + 1).drop_last() == all.take(i as int));
        proof {
            undone_stays(all, i + 1);
        }
        match job.end {
            JobEnd::Done => {},
            JobEnd::Failed(e) => {
                return Err(e);
            },
            JobEnd::Panicked => {
                let mut msg = job.what.to_owned();
                msg.append(" thread panicked");
                return Err(Error::Model(msg));
            },
        }
    }
    assert(all.take(n as int) == all);
    Ok(())
}

proof fn undone_stays(jobs: Seq<Job>, n: int)
    requires
        0 < n <= jobs.len(),
    ensures
        first_undone(jobs.take(n)) < n ==> first_undone(jobs) == first_undone(jobs.take(n)),
        0 <= first_undone(jobs) <= jobs.len(),
    decreases jobs.len(),
{
    if n == jobs.len() {
        assert(jobs.take(n) == jobs);
        if n > 1 {
            undone_stays(jobs.drop_last(), n - 1);
        }
    } else {
        undone_stays(jobs.drop_last(), n);
        assert(jobs.drop_last().take(n) == jobs.take(n));
    }
}

// Python, its packages and scripts.

/// The names under which Python is looked for, in this order.
pub open spec fn candidates() -> Seq<Seq<char>> {
    seq!["python3"@, "python3.12"@, "python3.11"@, "python3.10"@, "python"@]
}

/// The name at an index under which Python is looked for.
pub fn python_candidate(i: usize) -> (r: Option<&'static str>)
    ensures
        match r {
            Some(name) => i < candidates().len() && name@ == candidates()[i as int],
            None => i >= candidates().len(),
        },
{
    if i == 0 {
        Some("python3")
    } else if i == 1 {
        Some("python3.12")
    } else if i == 2 {
        Some("python3.11")
    } else if i == 3 {
        Some("python3.10")
    } else if i == 4 {
        Some("python")
    } else {
        None
    }
}

/// Where the search for Python stands.
#[derive(Clone, Copy, PartialEq, Eq, Structural)]
pub enum PythonSearch {
    /// Ask whether the candidate at this index runs.
    AskVersion(usize),
    /// Ask whether the candidate at this index has pip.
    AskPip(usize),
    /// The candidate at this index will do.
    Found(usize),
    /// None will do.
    NotFound,
}

/// The search goes on behind the candidate at index `i`.
pub open spec fn behind(i: usize) -> PythonSearch {
    if i + 1 < candidates().len() {
        PythonSearch::AskVersion((i + 1) as usize)
    } else {
        PythonSearch::NotFound
    }
}

/// Where the search stands after an answer.
pub open spec fn answered(search: PythonSearch, yes: bool) -> PythonSearch {
    match search {
        PythonSearch::AskVersion(i) => if yes {
            PythonSearch::AskPip(i)
        } else {
            behind(i)
        },
        PythonSearch::AskPip(i) => if yes {
            PythonSearch::Found(i)
        } else {
            behind(i)
        },
        PythonSearch::Found(i) => PythonSearch::Found(i),
        PythonSearch::NotFound => PythonSearch::NotFound,
    }
}

/// Takes an answer to what the search asks for.
pub fn answer(search: PythonSearch, yes: bool) -> (r: PythonSearch)
    ensures
        r == answered(search, yes),
{
    match search {
        PythonSearch::AskVersion(i) => if yes {
            PythonSearch::AskPip(i)
        } else if i < 4 {
            PythonSearch::AskVersion(i + 1)
        } else {
            PythonSearch::NotFound
        },
        PythonSearch::AskPip(i) => if yes {
            PythonSearch::Found(i)
        } else if i < 4 {
            PythonSearch::AskVersion(i + 1)
        } else {
            PythonSearch::NotFound
        },
        PythonSearch::Found(i) => PythonSearch::Found(i),
        PythonSearch::NotFound => PythonSearch::NotFound,
    }
}

/// Where the search ends that starts with the candidate at index `i`, if `runs` and `has_pip` say
/// how the candidates answer.
pub open spec fn searched(
    runs: spec_fn(int) -> bool,
    has_pip: spec_fn(int) -> bool,
    i: usize,
) -> PythonSearch
    decreases candidates().len() - i,
{
    if i >= candidates().len() {
        PythonSearch::NotFound
    } else {
        let asked = answered(PythonSearch::AskVersion(i), runs(i as int));
        let end = if asked is AskPip {
            answered(asked, has_pip(i as int))
        } else {
            asked
        };
        if end is AskVersion {
            searched(runs, has_pip, (i + 1) as usize)
        } else {
            end
        }
    }
}

/// The search finds the first candidate that runs and has pip, and none if there is none.
pub proof fn first_usable_python_is_found(
    runs: spec_fn(int) -> bool,
    has_pip: spec_fn(int) -> bool,
    i: usize,
)
    requires
        i <= candidates().len(),
    ensures
        match searched(runs, has_pip, i) {
            PythonSearch::Found(k) => {
                &&& i <= k < candidates().len()
                &&& runs(k as int) && has_pip(k as int)
                &&& forall|j: int| i <= j < k ==> !(#[trigger] runs(j) && has_pip(j))
            },
            PythonSearch::NotFound => forall|j: int|
                i <= j < candidates().len() ==> !(#[trigger] runs(j) && has_pip(j)),
            _ => false,
        },
    decreases candidates().len() - i,
{
    if i < candidates().len() {
        first_usable_python_is_found(runs, has_pip, (i + 1) as usize);
    }
}

/// The Python to use: the one that is set, or else the one that the search has found.
pub fn find_python(set: Option<String>, search: PythonSearch) -> (r: Result<String, Error>)
    ensures
        match set {
            Some(python) => r == Ok::<String, Error>(python),
            None => match search {
                PythonSearch::Found(i) if i < candidates().len() => r matches Ok(python) && python@
                    == candidates()[i as int],
                _ => {
                    &&& r matches Err(Error::Model(msg))
                    &&& msg@
                        == "python3 with pip not found. Install Python 3.10+ with pip, or set PYTHON env var."@
                },
            },
        },
{
    if let Some(python) = set {
        return Ok(python);
    }
    if let PythonSearch::Found(i) = search {
        if let Some(name) = python_candidate(i) {
            return Ok(name.to_owned());
        }
    }
    Err(
        Error::Model(
            "python3 with pip not found. Install Python 3.10+ with pip, or set PYTHON env var.".to_owned(),
        ),
    )
}

/// What Python is run for.
#[derive(Clone, Copy, PartialEq, Eq, Structural)]
pub enum PythonTask {
    /// Installing packages.
    Packages,
    /// Appending the pooling to the network.
    Export,
    /// Building the vocabulary cache.
    VocabCache,
}

/// What is wrong with a run of Python, if anything is. `made` says whether it made a file that is
/// not empty, which is not asked of the installation of packages.
pub open spec fn python_problem(
    task: PythonTask,
    python: Seq<char>,
    run: ToolRun,
    made: bool,
) -> Option<Seq<char>> {
    match (task, run) {
        (PythonTask::Packages, ToolRun::NotRun(e)) => Some(
            "failed to run pip ("@ + python + "): "@ + e@,
        ),
        (PythonTask::Export, ToolRun::NotRun(e)) => Some(
            "failed to run "@ + python + " for ONNX export: "@ + e@,
        ),
        (PythonTask::VocabCache, ToolRun::NotRun(e)) => Some(
            "failed to run "@ + python + " for vocab cache: "@ + e@,
        ),
        (PythonTask::Packages, ToolRun::Failed(stderr)) => Some(
            "pip install failed: "@ + trimmed(stderr@),
        ),
        (PythonTask::Export, ToolRun::Failed(stderr)) => Some(
            "ONNX export failed: "@ + trimmed(stderr@),
        ),
        (PythonTask::VocabCache, ToolRun::Failed(stderr)) => Some(
            "vocab cache build failed: "@ + trimmed(stderr@),
        ),
        (PythonTask::Packages, ToolRun::Succeeded) => None,
        (PythonTask::Export, ToolRun::Succeeded) => if made {
            None
        } else {
            Some("ONNX export produced no non-empty output file"@)
        },
        (PythonTask::VocabCache, ToolRun::Succeeded) => if made {
            None
        } else {
            Some("vocab cache build produced no non-empty output file"@)
        },
    }
}

fn two(a: &str, b: &str) -> (r: String)
    ensures
        r@ == a@ + b@,
{
    let mut out = a.to_owned();
    out.append(b);
    out
}

fn four(a: &str, b: &str, c: &str, d: &str) -> (r: String)
    ensures
        r@ == a@ + b@ + c@ + d@,
{
    let mut out = a.to_owned();
    out.append(b);
    out.append(c);
    out.append(d);
    out
}

/// Says whether a run of Python went well.
pub fn python_verdict(task: PythonTask, python: &str, run: &ToolRun, made: bool) -> (r: Result<
    (),
    Error,
>)
    ensures
        match r {
            Ok(()) => python_problem(task, python@, *run, made) is None,
            Err(Error::Model(msg)) => python_problem(task, python@, *run, made) == Some(msg@),
            Err(_) => false,
        },
{
    match run {
        ToolRun::NotRun(e) => {
            let msg = match task {
                PythonTask::Packages => four("failed to run pip (", python, "): ", e.as_str()),
                PythonTask::Export => four(
                    "failed to run ",
                    python,
                    " for ONNX export: ",
                    e.as_str(),
                ),
                PythonTask::VocabCache => four(
                    "failed to run ",
                    python,
                    " for vocab cache: ",
                    e.as_str(),
                ),
            };
            Err(Error::Model(msg))
        },
        ToolRun::Failed(stderr) => {
            let said = trim(stderr.as_str());
            let msg = match task {
                PythonTask::Packages => two("pip install failed: ", said.as_str()),
                PythonTask::Export => two("ONNX export failed: ", said.as_str()),
                PythonTask::VocabCache => two("vocab cache build failed: ", said.as_str()),
            };
            Err(Error::Model(msg))
        },
        ToolRun::Succeeded => match task {
            PythonTask::Packages => Ok(()),
            PythonTask::Export => if made {
                Ok(())
            } else {
                Err(Error::Model("ONNX export produced no non-empty output file".to_owned()))
            },
            PythonTask::VocabCache => if made {
                Ok(())
            } else {
                Err(
                    Error::Model(
                        "vocab cache build produced no non-empty output file".to_owned(),
                    ),
                )
            },
        },
    }
}

// Compiled engines.

/// The file name of the engine that is compiled for a bucket.
pub open spec fn engine_file(batch_size: usize, seq_len: usize, int8: bool) -> Seq<char> {
    "model_b"@ + decimal(batch_size as nat) + "_s"@ + decimal(seq_len as nat) + (if int8 {
        "_int8"@
    } else {
        ""@
    }) + ".engine"@
}

/// The file name of the engine that is compiled for a bucket.
pub fn engine_file_name(batch_size: usize, seq_len: usize, int8: bool) -> (r: String)
    ensures
        r@ == engine_file(batch_size, seq_len, int8),
{
    let mut name = "model_b".to_owned();
    name.append(to_decimal(batch_size as u64).as_str());
    name.append("_s");
    name.append(to_decimal(seq_len as u64).as_str());
    name.append(
        if int8 {
            "_int8"
        } else {
            ""
        },
    );
    name.append(".engine");
    name
}

/// The key of an engine among those of its model.
pub open spec fn engine_key(
    gpu_arch: Seq<char>,
    batch_size: usize,
    seq_len: usize,
    int8: bool,
) -> Seq<char> {
    gpu_arch + "/"@ + engine_file(batch_size, seq_len, int8)
}

/// The key of an engine among those of its model: the GPU architecture and the file name.
pub fn engine_cache_key(gpu_arch: &str, batch_size: usize, seq_len: usize, int8: bool) -> (r:
    String)
    ensures
        r@ == engine_key(gpu_arch@, batch_size, seq_len, int8),
{
    let mut key = gpu_arch.to_owned();
    key.append("/");
    key.append(engine_file_name(batch_size, seq_len, int8).as_str());
    key
}

/// The place of an engine in the remote store.
pub open spec fn remote_path(store: Seq<char>, model: Seq<char>, key: Seq<char>) -> Seq<char> {
    without_trailing(store, '/') + "/"@ + slug(model) + "/"@ + key
}

/// The place of an engine in the remote store.
pub fn engine_remote_path(
    engine_cache: &str,
    model: &str,
    gpu_arch: &str,
    batch_size: usize,
    seq_len: usize,
    int8: bool,
) -> (r: String)
    ensures
        r@ == remote_path(
            engine_cache@,
            model@,
            engine_key(gpu_arch@, batch_size, seq_len, int8),
        ),
{
    let mut path = trim_end_matches(engine_cache, '/');
    path.append("/");
    path.append(model_slug(model).as_str());
    path.append("/");
    path.append(engine_cache_key(gpu_arch, batch_size, seq_len, int8).as_str());
    path
}

/// The name of the GPU architecture with the compute capability that a tool has said.
pub open spec fn arch_of(said: Seq<char>) -> Option<Seq<char>> {
    if trimmed(said).len() == 0 {
        None
    } else {
        Some("sm_"@ + replaced_char(trimmed(said), '.', ""@))
    }
}

/// The name of the GPU architecture (e.g. "sm_80"), from the compute capability that a tool has
/// said, if it could be run.
pub fn detect_gpu_arch(said: Option<&str>) -> (r: Option<String>)
    ensures
        match said {
            Some(said) => match arch_of(said@) {
                Some(arch) => r matches Some(name) && name@ == arch,
                None => r is None,
            },
            None => r is None,
        },
{
    let said = match said {
        Some(said) => said,
        None => {
            return None;
        },
    };
    let cap = trim(said);
    if cap.as_str().is_empty() {
        return None;
    }
    let digits = replace_char(cap.as_str(), '.', "");
    Some(two("sm_", digits.as_str()))
}

/// Where the engine of a bucket comes from.
#[derive(Clone, Copy, PartialEq, Eq, Structural)]
pub enum EngineSource {
    /// From the model's directory.
    Local,
    /// From the remote store.
    Remote,
    /// It is compiled.
    Compiled,
}

/// Where the engine of a bucket comes from, if `local` says that it is in the model's directory,
/// and `fetched` that there is a remote store which had it.
pub fn engine_source(local: bool, fetched: bool) -> (r: EngineSource)
    ensures
        r == (if local {
            EngineSource::Local
        } else if fetched {
            EngineSource::Remote
        } else {
            EngineSource::Compiled
        }),
{
    if local {
        EngineSource::Local
    } else if fetched {
        EngineSource::Remote
    } else {
        EngineSource::Compiled
    }
}

/// The indices of the engines that are to be compiled.
pub open spec fn to_compile(sources: Seq<EngineSource>) -> Seq<usize>
    decreases sources.len(),
{
    if sources.len() == 0 {
        Seq::empty()
    } else if sources.last() is Compiled {
        to_compile(sources.drop_last()).push((sources.len() - 1) as usize)
    } else {
        to_compile(sources.drop_last())
    }
}

/// The indices of the engines that are to be compiled, in ascending order.
pub fn engines_to_compile(sources: &Vec<EngineSource>) -> (r: Vec<usize>)
    ensures
        r@ == to_compile(sources@),
{
    let mut list: Vec<usize> = Vec::new();
    for i in 0..sources.len()
        invariant
            list@ == to_compile(sources@.take(i as int)),
    {
        assert(sources@.take(i + 1).drop_last() == sources@.take(i as int));
        if sources[i] == EngineSource::Compiled {
            list.push(i);
        }
    }
    assert(sources@.take(sources@.len() as int) == sources@);
    list
}

/// What is said of an engine that could not be compiled.
pub open spec fn engine_problem(batch_size: usize, seq_len: usize, e: Seq<char>) -> Seq<char> {
    "engine b"@ + decimal(batch_size as nat) + "_s"@ + decimal(seq_len as nat) + ": "@ + e
}

/// The error for an engine that could not be compiled: the compiler's, or that its thread broke
/// off where the compiler gave none.
pub fn engine_error(batch_size: usize, seq_len: usize, e: Option<&str>) -> (r: Error)
    ensures
        r matches Error::Inference(msg) && msg@ == match e {
            Some(e) => engine_problem(batch_size, seq_len, e@),
            None => "engine compile thread panicked"@,
        },
{
    match e {
        Some(e) => {
            let mut msg = "engine b".to_owned();
            msg.append(to_decimal(batch_size as u64).as_str());
            msg.append("_s");
            msg.append(to_decimal(seq_len as u64).as_str());
            msg.append(": ");
            msg.append(e);
            Error::Inference(msg)
        },
        None => Error::Inference("engine compile thread panicked".to_owned()),
    }
}

/// Texts that start with digits and go on with something else have the same digits and the same
/// rest if they are the same.
proof fn digits_split(a: Seq<char>, s: Seq<char>, b: Seq<char>, t: Seq<char>)
    requires
        a + s == b + t,
        forall|i: int| 0 <= i < a.len() ==> '0' <= #[trigger] a[i] <= '9',
        forall|i: int| 0 <= i < b.len() ==> '0' <= #[trigger] b[i] <= '9',
        s.len() > 0 && !('0' <= s[0] <= '9'),
        t.len() > 0 && !('0' <= t[0] <= '9'),
    ensures
        a == b,
        s == t,
{
    let whole = a + s;
    assert(whole == b + t);
    if a.len() < b.len() {
        assert(whole[a.len() as int] == s[0]);
        assert(whole[a.len() as int] == b[a.len() as int]);
    } else if b.len() < a.len() {
        assert(whole[b.len() as int] == t[0]);
        assert(whole[b.len() as int] == a[b.len() as int]);
    }
    assert(a == whole.take(a.len() as int));
    assert(b == whole.take(a.len() as int));
    assert(s == whole.skip(a.len() as int));
    assert(t == whole.skip(a.len() as int));
}

proof fn decimal_is_injective(a: nat, b: nat)
    requires
        decimal(a) == decimal(b),
    ensures
        a == b,
{
    let max = if a < b {
        b
    } else {
        a
    };
    decimal_reads_back(a, max);
    decimal_reads_back(b, max);
}

proof fn same_front(a: Seq<char>, s: Seq<char>, t: Seq<char>)
    requires
        a + s == a + t,
    ensures
        s == t,
{
    assert(s == (a + s).skip(a.len() as int));
    assert(t == (a + t).skip(a.len() as int));
}

/// The part of an engine's file name behind the sequence length.
spec fn engine_end(int8: bool) -> Seq<char> {
    (if int8 {
        "_int8"@
    } else {
        ""@
    }) + ".engine"@
}

proof fn engine_end_begins(int8: bool)
    ensures
        engine_end(int8).len() == if int8 {
            12nat
        } else {
            7nat
        },
        !('0' <= engine_end(int8)[0] <= '9'),
{
    reveal_strlit("_int8");
    reveal_strlit("");
    reveal_strlit(".engine");
}

proof fn engine_file_parts(batch_size: usize, seq_len: usize, int8: bool)
    ensures
        engine_file(batch_size, seq_len, int8) == "model_b"@ + (decimal(batch_size as nat) + ("_s"@
            + (decimal(seq_len as nat) + engine_end(int8)))),
{
    let parts = "model_b"@ + (decimal(batch_size as nat) + ("_s"@ + (decimal(seq_len as nat)
        + engine_end(int8))));
    assert(engine_file(batch_size, seq_len, int8) =~= parts);
}

/// Engines of different shapes or precisions have different file names.
pub proof fn engine_file_tells_shape(
    batch_size: usize,
    seq_len: usize,
    int8: bool,
    batch_size2: usize,
    seq_len2: usize,
    int82: bool,
)
    requires
        engine_file(batch_size, seq_len, int8) == engine_file(batch_size2, seq_len2, int82),
    ensures
        batch_size == batch_size2,
        seq_len == seq_len2,
        int8 == int82,
{
    let b1 = decimal(batch_size as nat);
    let b2 = decimal(batch_size2 as nat);
    let s1 = decimal(seq_len as nat);
    let s2 = decimal(seq_len2 as nat);
    let e1 = engine_end(int8);
    let e2 = engine_end(int82);
    let r1 = "_s"@ + (s1 + e1);
    let r2 = "_s"@ + (s2 + e2);
    engine_file_parts(batch_size, seq_len, int8);
    engine_file_parts(batch_size2, seq_len2, int82);
    engine_end_begins(int8);
    engine_end_begins(int82);
    same_front("model_b"@, b1 + r1, b2 + r2);
    assert(r1.len() > 0 && !('0' <= r1[0] <= '9') && r2.len() > 0 && !('0' <= r2[0] <= '9')) by {
        reveal_strlit("_s");
    }
    decimal_is_digits(batch_size as nat);
    decimal_is_digits(batch_size2 as nat);
    digits_split(b1, r1, b2, r2);
    same_front("_s"@, s1 + e1, s2 + e2);
    decimal_is_digits(seq_len as nat);
    decimal_is_digits(seq_len2 as nat);
    digits_split(s1, e1, s2, e2);
    decimal_is_injective(batch_size as nat, batch_size2 as nat);
    decimal_is_injective(seq_len as nat, seq_len2 as nat);
}

proof fn engine_file_has_no_slash(batch_size: usize, seq_len: usize, int8: bool)
    ensures
        !engine_file(batch_size, seq_len, int8).contains('/'),
{
    reveal_strlit("model_b");
    reveal_strlit("_s");
    reveal_strlit("_int8");
    reveal_strlit("");
    reveal_strlit(".engine");
    decimal_is_digits(batch_size as nat);
    decimal_is_digits(seq_len as nat);
    let f = engine_file(batch_size, seq_len, int8);
    let a = "model_b"@;
    let b = decimal(batch_size as nat);
    let c = "_s"@;
    let d = decimal(seq_len as nat);
    let e = engine_end(int8);
    assert(f == a + b + c + d + e);
    assert forall|i: int| 0 <= i < f.len() implies f[i] != '/' by {
        let n1 = a.len() as int;
        let n2 = n1 + b.len();
        let n3 = n2 + c.len();
        let n4 = n3 + d.len();
        if n1 <= i < n2 {
            assert(f[i] == b[i - n1]);
        } else if n3 <= i < n4 {
            assert(f[i] == d[i - n3]);
        } else if i < n1 {
            assert(f[i] == a[i]);
        } else if i < n3 {
            assert(f[i] == c[i - n2]);
        } else {
            assert(f[i] == e[i - n4]);
        }
    }
}

/// Engines are keyed by the GPU architecture and the shape and precision of the bucket: no two
/// have the same key.
pub proof fn engine_key_tells_engine(
    gpu_arch: Seq<char>,
    batch_size: usize,
    seq_len: usize,
    int8: bool,
    gpu_arch2: Seq<char>,
    batch_size2: usize,
    seq_len2: usize,
    int82: bool,
)
    requires
        engine_key(gpu_arch, batch_size, seq_len, int8) == engine_key(
            gpu_arch2,
            batch_size2,
            seq_len2,
            int82,
        ),
    ensures
        gpu_arch == gpu_arch2,
        batch_size == batch_size2,
        seq_len == seq_len2,
        int8 == int82,
{
    reveal_strlit("/");
    let key = engine_key(gpu_arch, batch_size, seq_len, int8);
    let f1 = engine_file(batch_size, seq_len, int8);
    let f2 = engine_file(batch_size2, seq_len2, int82);
    engine_file_has_no_slash(batch_size, seq_len, int8);
    engine_file_has_no_slash(batch_size2, seq_len2, int82);
    let n1 = gpu_arch.len() as int;
    let n2 = gpu_arch2.len() as int;
    assert(key.len() == n1 + 1 + f1.len());
    assert(key.len() == n2 + 1 + f2.len());
    assert(key[n1] == '/');
    assert(key[n2] == '/');
    if n1 < n2 {
        assert(key[n2] == f1[n2 - n1 - 1]);
    } else if n2 < n1 {
        assert(key[n1] == f2[n1 - n2 - 1]);
    }
    assert(gpu_arch == key.take(n1));
    assert(gpu_arch2 == key.take(n1));
    assert(f1 == key.skip(n1 + 1));
    assert(f2 == key.skip(n1 + 1));
    engine_file_tells_shape(batch_size, seq_len, int8, batch_size2, seq_len2, int82);
}

// Laws.

/// The directory of a model is its name with two hyphens in place of each slash, and every other
/// character as it is.
pub proof fn slug_changes_only_slashes(a: Seq<char>, b: Seq<char>)
    ensures
        slug(a + "/"@ + b) == slug(a) + "--"@ + slug(b),
        !a.contains('/') ==> slug(a) == a,
{
    reveal_strlit("/");
    assert("/"@ =~= seq!['/']);
    replacing_goes_character_by_character(a, "/"@, '/', "--"@);
    replacing_goes_character_by_character(a + "/"@, b, '/', "--"@);
}

/// The address of a file names the whole repository, revision and path.
pub proof fn address_names_the_file(repo: Seq<char>, revision: Seq<char>, path: Seq<char>)
    ensures
        url_of(repo, revision, path) == "https://huggingface.co/"@ + repo + "/resolve/"@ + revision
            + "/"@ + path,
{
}

/// Slashes at the end of the store do not matter, and the rest of it, the model and the key stand in
/// the place of an engine in full.
pub proof fn place_names_store_model_and_key(store: Seq<char>, model: Seq<char>, key: Seq<char>)
    ensures
        remote_path(store + "/"@, model, key) == remote_path(store, model, key),
        store.len() == 0 || store.last() != '/' ==> remote_path(store, model, key) == store + "/"@
            + slug(model) + "/"@ + key,
{
    reveal_strlit("/");
    let longer = store + "/"@;
    assert(longer.drop_last() =~= store);
    assert(longer.last() == '/');
}

/// The compute capability names the architecture without its dot, and nothing is named where
/// nothing was said.
pub proof fn capability_names_the_architecture(major: Seq<char>, minor: Seq<char>, said: Seq<char>)
    requires
        major.len() > 0,
        minor.len() > 0,
        forall|i: int| 0 <= i < major.len() ==> '0' <= #[trigger] major[i] <= '9',
        forall|i: int| 0 <= i < minor.len() ==> '0' <= #[trigger] minor[i] <= '9',
    ensures
        trimmed(said) == major + seq!['.'] + minor ==> arch_of(said) == Some(
            "sm_"@ + major + minor,
        ),
        trimmed(said).len() == 0 ==> arch_of(said) is None,
{
    reveal_strlit("");
    assert(!major.contains('.'));
    assert(!minor.contains('.'));
    replacing_goes_character_by_character(major, seq!['.'], '.', ""@);
    replacing_goes_character_by_character(major + seq!['.'], minor, '.', ""@);
    replacing_goes_character_by_character(minor, minor, '.', ""@);
    assert(replaced_char(major + seq!['.'] + minor, '.', ""@) =~= major + minor);
    assert("sm_"@ + (major + minor) =~= "sm_"@ + major + minor);
}

/// Exactly the engines that were neither there nor fetched are compiled, each once, in ascending
/// order.
pub proof fn missing_engines_are_compiled(sources: Seq<EngineSource>)
    requires
        sources.len() <= usize::MAX,
    ensures
        forall|i: int|
            0 <= i < sources.len() ==> (#[trigger] sources[i] is Compiled <==> to_compile(
                sources,
            ).contains(i as usize)),
        forall|i: int, j: int|
            0 <= i < j < to_compile(sources).len() ==> to_compile(sources)[i] < to_compile(
                sources,
            )[j],
        forall|k: int|
            0 <= k < to_compile(sources).len() ==> #[trigger] to_compile(sources)[k] < sources.len(),
    decreases sources.len(),
{
    if sources.len() > 0 {
        let front = sources.drop_last();
        missing_engines_are_compiled(front);
        let before = to_compile(front);
        let all = to_compile(sources);
        let n = sources.len() - 1;
        assert forall|i: int| 0 <= i < sources.len() implies (#[trigger] sources[i] is Compiled
            <==> all.contains(i as usize)) by {
            if i < n {
                assert(front[i] == sources[i]);
                if all.contains(i as usize) {
                    let k = choose|k: int| 0 <= k < all.len() && all[k] == i as usize;
                    assert(before[k] == i as usize);
                }
                if before.contains(i as usize) {
                    let k = choose|k: int| 0 <= k < before.len() && before[k] == i as usize;
                    assert(all[k] == i as usize);
                }
            } else {
                if sources[i] is Compiled {
                    assert(all[all.len() - 1] == i as usize);
                }
                if all.contains(i as usize) && !(sources[i] is Compiled) {
                    let k = choose|k: int| 0 <= k < all.len() && all[k] == i as usize;
                    assert(before[k] < front.len());
                }
            }
        }
        assert forall|k: int| 0 <= k < all.len() implies #[trigger] all[k] < sources.len() by {
            if k < before.len() {
                assert(all[k] == before[k]);
            }
        }
        assert forall|i: int, j: int| 0 <= i < j < all.len() implies all[i] < all[j] by {
            assert(all[i] == before[i]);
            if j < before.len() {
                assert(all[j] == before[j]);
            }
        }
    }
}

/// The first job that was not done is not done, and all before it are.
pub proof fn first_undone_job_is_found(jobs: Seq<Job>)
    ensures
        0 <= first_undone(jobs) <= jobs.len(),
        forall|i: int| 0 <= i < first_undone(jobs) ==> (#[trigger] jobs[i]).end is Done,
        first_undone(jobs) < jobs.len() ==> !(jobs[first_undone(jobs)].end is Done),
    decreases jobs.len(),
{
    if jobs.len() > 0 {
        let front = jobs.drop_last();
        first_undone_job_is_found(front);
        assert forall|i: int| 0 <= i < first_undone(jobs) implies (#[trigger] jobs[i]).end is Done by {
            if i < front.len() {
                assert(front[i] == jobs[i]);
            }
        }
        if first_undone(front) < front.len() {
            assert(front[first_undone(front)] == jobs[first_undone(front)]);
        }
    }
}

/// A download went well if and only if the tool succeeded and made a file that is not empty, and
/// a task of Python if and only if it succeeded and made what it is to make.
pub proof fn only_success_is_success(
    url: Seq<char>,
    run: ToolRun,
    size: u64,
    task: PythonTask,
    python: Seq<char>,
    made: bool,
)
    ensures
        download_problem(url, run, size) is None <==> run is Succeeded && size > 0,
        python_problem(task, python, run, made) is None <==> run is Succeeded && (made || task
            is Packages),
{
}

/// Every model whose name is not just slashes can be provisioned. Its tokenizer and configuration
/// come from the repository of its own name, and, if it is not pinned, its network from the
/// repository of that name among the networks, at the newest revision.
pub proof fn any_model_can_be_provisioned(model: Seq<char>)
    ensures
        last_part(model).len() > 0 ==> model_source(model) is Some,
        model_source(model) matches Some(info) ==> info.hf_repo == model && info.onnx_path
            == "onnx/model.onnx"@,
        known_model(model) is None && last_part(model).len() > 0 ==> (model_source(model) matches Some(
            info,
        ) && info.onnx_repo == "Xenova/"@ + last_part(model) && info.hf_revision == "main"@
            && info.onnx_revision == "main"@ && info.hidden_dim is None),
{
    known_model_is_its_own_repo(model);
}

/// The models that are pinned to a revision, and what is known of each.
pub proof fn six_models_are_pinned(model: Seq<char>)
    ensures
        ({
            let names = seq![
                "intfloat/multilingual-e5-small"@,
                "intfloat/multilingual-e5-base"@,
                "intfloat/multilingual-e5-large"@,
                "intfloat/e5-small-v2"@,
                "intfloat/e5-base-v2"@,
                "intfloat/e5-large-v2"@,
            ];
            let revisions = seq![
                "614241f622f53c4eeff9890bdc4f31cfecc418b3"@,
                "d128750597153bb5987e10b1c3493a34e5a4502a"@,
                "3d7cfbdacd47fdda877c5cd8a79fbcc4f2a574f3"@,
                "ffb93f3bd4047442299a41ebb6fa998a38507c52"@,
                "f52bf8ec8c7124536f0efb74aca902b2995e5bcd"@,
                "f169b11e22de13617baa190a028a32f3493550b6"@,
            ];
            let network_revisions = seq![
                "761b726dd34fb83930e26aab4e9ac3899aa1fa78"@,
                "1ec9243030a27d1a115d5c340572074c125b58b2"@,
                "00fc3aeb3dbb95842de2ac1961d33c6319acf57b"@,
                "02af79985278377e65c724a76275707cb0333c70"@,
                "21f8d0e36fdfe76e6a023802dfb293fc6d750ad1"@,
                "840fd2207f68e253697ed85392a482ff7657ad11"@,
            ];
            let widths = seq![384usize, 768, 1024, 384, 768, 1024];
            &&& known_model(model) is Some <==> names.contains(model)
            &&& forall|i: int|
                0 <= i < names.len() ==> (known_model(#[trigger] names[i]) matches Some(info)
                    && info.hf_repo == names[i] && info.hf_revision == revisions[i]
                    && info.onnx_repo == "Xenova/"@ + names[i].skip(9) && info.onnx_revision
                    == network_revisions[i] && info.hidden_dim == Some(widths[i]))
        }),
{
    reveal_strlit("Xenova/");
    reveal_strlit("intfloat/multilingual-e5-small");
    reveal_strlit("Xenova/multilingual-e5-small");
    reveal_strlit("intfloat/multilingual-e5-base");
    reveal_strlit("Xenova/multilingual-e5-base");
    reveal_strlit("intfloat/multilingual-e5-large");
    reveal_strlit("Xenova/multilingual-e5-large");
    reveal_strlit("intfloat/e5-small-v2");
    reveal_strlit("Xenova/e5-small-v2");
    reveal_strlit("intfloat/e5-base-v2");
    reveal_strlit("Xenova/e5-base-v2");
    reveal_strlit("intfloat/e5-large-v2");
    reveal_strlit("Xenova/e5-large-v2");
    let names = seq![
        "intfloat/multilingual-e5-small"@,
        "intfloat/multilingual-e5-base"@,
        "intfloat/multilingual-e5-large"@,
        "intfloat/e5-small-v2"@,
        "intfloat/e5-base-v2"@,
        "intfloat/e5-large-v2"@,
    ];
    let (ms, mb, ml) = (names[0], names[1], names[2]);
    let (s, b, l) = (names[3], names[4], names[5]);
    assert(ms.len() == 30 && mb.len() == 29 && ml.len() == 30);
    assert(s.len() == 20 && b.len() == 19 && l.len() == 20);
    assert(ms[25] == 's' && ml[25] == 'l');
    assert(s[12] == 's' && l[12] == 'l');
    assert(known_model(ms) is Some && known_model(mb) is Some && known_model(ml) is Some);
    assert(known_model(s) is Some && known_model(b) is Some && known_model(l) is Some);
    if known_model(model) is Some {
        assert(model == names[0] || model == names[1] || model == names[2] || model == names[3]
            || model == names[4] || model == names[5]);
    }
    assert("Xenova/"@ + ms.skip(9) =~= "Xenova/multilingual-e5-small"@);
    assert("Xenova/"@ + mb.skip(9) =~= "Xenova/multilingual-e5-base"@);
    assert("Xenova/"@ + ml.skip(9) =~= "Xenova/multilingual-e5-large"@);
    assert("Xenova/"@ + s.skip(9) =~= "Xenova/e5-small-v2"@);
    assert("Xenova/"@ + b.skip(9) =~= "Xenova/e5-base-v2"@);
    assert("Xenova/"@ + l.skip(9) =~= "Xenova/e5-large-v2"@);
}

/// An architecture has all that was said of the GPU but for dots and white space around it.
pub proof fn architecture_is_said_without_dots(said: Seq<char>)
    ensures
        arch_of(said) is Some <==> trimmed(said).len() > 0,
        arch_of(said) matches Some(arch) ==> arch == "sm_"@ + trimmed(said).filter(
            |c: char| c != '.',
        ),
{
    reveal_strlit("");
    assert(""@ =~= Seq::<char>::empty());
    dots_are_left_out(trimmed(said));
}

proof fn dots_are_left_out(s: Seq<char>)
    ensures
        replaced_char(s, '.', Seq::empty()) == s.filter(|c: char| c != '.'),
    decreases s.len(),
{
    reveal(Seq::filter);
    if s.len() > 0 {
        dots_are_left_out(s.drop_last());
        let front = replaced_char(s.drop_last(), '.', Seq::empty());
        assert(front + Seq::<char>::empty() =~= front);
    } else {
        assert(replaced_char(s, '.', Seq::empty()) =~= Seq::<char>::empty());
        assert(s.filter(|c: char| c != '.') =~= Seq::<char>::empty());
    }
}

/// The name of an engine's file, and its key in a store.
pub proof fn engine_is_named_by_its_shape(arch: Seq<char>, batch_size: usize, seq_len: usize)
    ensures
        engine_file(batch_size, seq_len, false) == "model_b"@ + decimal(batch_size as nat) + "_s"@
            + decimal(seq_len as nat) + ".engine"@,
        engine_file(batch_size, seq_len, true) == "model_b"@ + decimal(batch_size as nat) + "_s"@
            + decimal(seq_len as nat) + "_int8.engine"@,
        engine_key(arch, batch_size, seq_len, false) == arch + "/model_b"@ + decimal(
            batch_size as nat,
        ) + "_s"@ + decimal(seq_len as nat) + ".engine"@,
        engine_key(arch, batch_size, seq_len, true) == arch + "/model_b"@ + decimal(
            batch_size as nat,
        ) + "_s"@ + decimal(seq_len as nat) + "_int8.engine"@,
{
    reveal_strlit("");
    reveal_strlit("/");
    reveal_strlit("model_b");
    reveal_strlit("/model_b");
    reveal_strlit("_int8");
    reveal_strlit(".engine");
    reveal_strlit("_int8.engine");
    assert("/"@ + "model_b"@ =~= "/model_b"@);
    assert("_int8"@ + ".engine"@ =~= "_int8.engine"@);
    let (b, s) = (decimal(batch_size as nat), decimal(seq_len as nat));
    assert(engine_file(batch_size, seq_len, false) =~= "model_b"@ + b + "_s"@ + s + ".engine"@);
    assert(engine_file(batch_size, seq_len, true) =~= "model_b"@ + b + "_s"@ + s
        + "_int8.engine"@);
    assert(engine_key(arch, batch_size, seq_len, false) =~= arch + "/model_b"@ + b + "_s"@ + s
        + ".engine"@);
    assert(engine_key(arch, batch_size, seq_len, true) =~= arch + "/model_b"@ + b + "_s"@ + s
        + "_int8.engine"@);
}

/// What is said of a failure tells what failed, and all that the tool said but for white space
/// around it.
pub proof fn tools_failures_are_told(
    url: Seq<char>,
    run: ToolRun,
    size: u64,
    python: Seq<char>,
    made: bool,
    batch_size: usize,
    seq_len: usize,
)
    ensures
        run matches ToolRun::NotRun(e) ==> {
            &&& download_problem(url, run, size) == Some("failed to run curl: "@ + e@)
            &&& python_problem(PythonTask::Packages, python, run, made) == Some(
                "failed to run pip ("@ + python + "): "@ + e@,
            )
            &&& python_problem(PythonTask::Export, python, run, made) == Some(
                "failed to run "@ + python + " for ONNX export: "@ + e@,
            )
            &&& python_problem(PythonTask::VocabCache, python, run, made) == Some(
                "failed to run "@ + python + " for vocab cache: "@ + e@,
            )
        },
        run matches ToolRun::Failed(said) ==> {
            &&& download_problem(url, run, size) == Some(
                "download failed: "@ + url + " — "@ + trimmed(said@),
            )
            &&& python_problem(PythonTask::Packages, python, run, made) == Some(
                "pip install failed: "@ + trimmed(said@),
            )
            &&& python_problem(PythonTask::Export, python, run, made) == Some(
                "ONNX export failed: "@ + trimmed(said@),
            )
            &&& python_problem(PythonTask::VocabCache, python, run, made) == Some(
                "vocab cache build failed: "@ + trimmed(said@),
            )
        },
        run is Succeeded && size == 0 ==> download_problem(url, run, size) == Some(
            "download produced empty file: "@ + url,
        ),
        run is Succeeded && !made ==> python_problem(PythonTask::Export, python, run, made) == Some(
            "ONNX export produced no non-empty output file"@,
        ) && python_problem(PythonTask::VocabCache, python, run, made) == Some(
            "vocab cache build produced no non-empty output file"@,
        ),
        unknown_model(url) == "unknown model '"@ + url + "'"@,
        engine_problem(batch_size, seq_len, url) == "engine b"@ + decimal(batch_size as nat) + "_s"@
            + decimal(seq_len as nat) + ": "@ + url,
{
}

/// The names that Python is looked for under, in their order. The search ends where it has found
/// one or has none left, and stays there.
pub proof fn python_is_looked_for_in_order(i: usize, yes: bool)
    requires
        i < 5,
    ensures
        candidates() == seq!["python3"@, "python3.12"@, "python3.11"@, "python3.10"@, "python"@],
        answered(PythonSearch::AskVersion(i), true) == PythonSearch::AskPip(i),
        answered(PythonSearch::AskPip(i), true) == PythonSearch::Found(i),
        answered(PythonSearch::AskVersion(i), false) == answered(PythonSearch::AskPip(i), false),
        i < 4 ==> answered(PythonSearch::AskPip(i), false) == PythonSearch::AskVersion(
            (i + 1) as usize,
        ),
        i == 4 ==> answered(PythonSearch::AskPip(i), false) is NotFound,
        answered(PythonSearch::Found(i), yes) == PythonSearch::Found(i),
        answered(PythonSearch::NotFound, yes) is NotFound,
{
}

}
