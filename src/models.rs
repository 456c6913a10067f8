//! Descriptions of downloadable language models.
use vstd::prelude::*;
use crate::error::EmoError;
use crate::text::{
    char_vec, string_of, lower_of, lowercase, lower_chars, contains_seq, contains_chars, ends_with,
    split_parts, split_at_chars, replace_all, replace_text, same_text,
};

verus! {

/// A downloadable model.
#[derive(Debug, Clone)]
pub struct ModelInfo {
    pub id: String,
    pub name: String,
    pub url: String,
    pub size_mb: usize,
    pub description: String,
}

/// The part of `s` after its last `/` (all of `s` when it has none).
pub open spec fn last_segment(s: Seq<char>) -> Seq<char>
    decreases s.len(),
{
    if s.len() == 0 {
        Seq::empty()
    } else if s.last() == '/' {
        Seq::empty()
    } else {
        last_segment(s.drop_last()).push(s.last())
    }
}

impl ModelInfo {
    /// The file name of the model: the last `/`-separated part of its URL.
    pub fn filename(&self) -> (r: String)
        ensures
            r@ == last_segment(self.url@),
    {
        let v = char_vec(self.url.as_str());
        let mut tail: Vec<char> = Vec::new();
        let mut i: usize = 0;
        while i < v.len()
            invariant
                i <= v@.len(),
                tail@ == last_segment(v@.take(i as int)),
            decreases v@.len() - i,
        {
            assert(v@.take(i + 1).drop_last() =~= v@.take(i as int));
            if v[i] == '/' {
                tail = Vec::new();
            } else {
                tail.push(v[i]);
            }
            i += 1;
        }
        assert(v@.take(i as int) =~= self.url@);
        string_of(&tail)
    }
}

/// The source of the list of available models.
pub struct ModelRegistry;

/// A file of a model repository, with its size and the size as shown.
pub struct RepoFile {
    pub path: String,
    pub size: u64,
    pub size_label: String,
}

/// A repository listed by the model hub, with its files when they could be
/// listed.
pub struct RepoListing {
    pub model_id: String,
    pub files: Option<Vec<RepoFile>>,
}

/// Repositories inspected for a model file, at most.
pub const MAX_REPOS: usize = 6;

/// Whether `path` names a GGUF file in the Q4_K_M quantisation.
pub open spec fn is_q4_gguf_spec(path: Seq<char>) -> bool {
    contains_seq(lower_of(path), "q4_k_m"@) && ends_with(path, ".gguf"@)
}

/// The index of the first Q4_K_M GGUF file of `files`.
pub open spec fn first_q4_file(files: Seq<RepoFile>) -> Option<int>
    decreases files.len(),
{
    if files.len() == 0 {
        None
    } else if first_q4_file(files.drop_last()) is Some {
        first_q4_file(files.drop_last())
    } else if is_q4_gguf_spec(files.last().path@) {
        Some(files.len() - 1)
    } else {
        None
    }
}

/// The (repository, file) pairs that yield models: for each of the first
/// `n` repositories whose files are known, its first Q4_K_M GGUF file.
pub open spec fn picked_files(repos: Seq<RepoListing>, n: int) -> Seq<(int, int)>
    decreases n,
{
    if n <= 0 {
        Seq::empty()
    } else {
        picked_files(repos, n - 1) + match repos[n - 1].files {
            Some(files) => match first_q4_file(files@) {
                Some(k) => seq![(n - 1, k)],
                None => Seq::empty(),
            },
            None => Seq::empty(),
        }
    }
}

/// The (repository, file) pairs that yield models among the repositories
/// inspected.
pub open spec fn listed_picks(repos: Seq<RepoListing>) -> Seq<(int, int)> {
    picked_files(repos, if repos.len() <= MAX_REPOS { repos.len() as int } else { MAX_REPOS as int })
}

/// Whether a part of a repository name is kept in a short model id.
pub open spec fn keeps_part(p: Seq<char>) -> bool {
    p.len() > 0 && p != "GGUF"@ && p != "Q4"@ && p != "K"@ && p != "M"@
}

/// The kept parts among `ps`, in order.
pub open spec fn kept_parts(ps: Seq<Seq<char>>) -> Seq<Seq<char>>
    decreases ps.len(),
{
    if ps.len() == 0 {
        Seq::empty()
    } else if keeps_part(ps.last()) {
        kept_parts(ps.drop_last()).push(ps.last())
    } else {
        kept_parts(ps.drop_last())
    }
}

/// `ps` written one after another, separated by `-`.
pub open spec fn dash_joined(ps: Seq<Seq<char>>) -> Seq<char>
    decreases ps.len(),
{
    if ps.len() == 0 {
        Seq::empty()
    } else if ps.len() == 1 {
        ps[0]
    } else {
        dash_joined(ps.drop_last()) + "-"@ + ps.last()
    }
}

/// The short id of a repository name: its first three meaningful parts,
/// joined by `-` and lower-cased.
pub open spec fn short_id(repo: Seq<char>) -> Seq<char> {
    let kept = kept_parts(split_parts(repo, '-', Some('_')));
    lower_of(dash_joined(if kept.len() <= 3 { kept } else { kept.take(3) }))
}

/// The display name of a repository name: without `-GGUF` and `-Q4_K_M`,
/// underscores shown as spaces.
pub open spec fn display_name(repo: Seq<char>) -> Seq<char> {
    replace_all(replace_all(replace_all(repo, "-GGUF"@, ""@), "-Q4_K_M"@, ""@), "_"@, " "@)
}

/// The owner part of a model id (before its first `/`).
pub open spec fn owner_of(model_id: Seq<char>) -> Seq<char> {
    split_parts(model_id, '/', None)[0]
}

/// The model described by `file` of repository `model_id`.
pub open spec fn describes(m: ModelInfo, model_id: Seq<char>, file: RepoFile) -> bool {
    &&& m.id@ == short_id(last_segment(model_id))
    &&& m.name@ == display_name(last_segment(model_id))
    &&& m.url@ == "https://huggingface.co/"@ + model_id + "/resolve/main/"@ + file.path@
    &&& m.size_mb == (file.size / 1_000_000) as usize
    &&& m.description@ == "Q4_K_M • "@ + file.size_label@ + " • by "@ + owner_of(model_id)
}

/// Whether `path` names a GGUF file in the Q4_K_M quantisation.
pub fn is_q4_gguf(path: &str) -> (r: bool)
    ensures
        r == is_q4_gguf_spec(path@),
{
    let low = lower_chars(path);
    let tag = char_vec("q4_k_m");
    let p = char_vec(path);
    let ext = char_vec(".gguf");
    if !contains_chars(&low, &tag) {
        return false;
    }
    if p.len() < ext.len() {
        return false;
    }
    let mut i: usize = 0;
    let plen = p.len();
    let start = p.len() - ext.len();
    while i < ext.len()
        invariant
            i <= ext@.len(),
            plen == p@.len(),
            p@ == path@,
            ext@ == ".gguf"@,
            start + ext@.len() == p@.len(),
            forall|k: int| 0 <= k < i ==> p@[start + k] == ext@[k],
        decreases ext@.len() - i,
    {
        if p[start + i] != ext[i] {
            assert(p@.subrange(start as int, p@.len() as int)[i as int] != ext@[i as int]);
            return false;
        }
        i += 1;
    }
    assert(p@.subrange(start as int, p@.len() as int) =~= ext@);
    true
}

fn append_chars(out: &mut String, v: &[char])
    ensures
        final(out)@ == old(out)@ + v@,
{
    let s = string_of(v);
    out.append(s.as_str());
}

fn short_id_of(repo: &[char]) -> (r: String)
    ensures
        r@ == short_id(repo@),
{
    let rs = string_of(repo);
    let parts = split_at_chars(rs.as_str(), '-', Some('_'));
    let ghost sp = split_parts(repo@, '-', Some('_'));
    let mut kept: Vec<Vec<char>> = Vec::new();
    let mut i: usize = 0;
    while i < parts.len()
        invariant
            i <= parts@.len(),
            parts@.len() == sp.len(),
            forall|k: int| 0 <= k < parts@.len() ==> #[trigger] parts@[k]@ == sp[k],
            kept@.len() == kept_parts(sp.take(i as int)).len(),
            forall|k: int| 0 <= k < kept@.len() ==> #[trigger] kept@[k]@ == kept_parts(sp.take(i as int))[k],
        decreases parts@.len() - i,
    {
        assert(sp.take(i + 1).drop_last() =~= sp.take(i as int));
        let p = &parts[i];
        let ps = string_of(p);
        let keep = p.len() > 0 && !same_text(ps.as_str(), "GGUF") && !same_text(ps.as_str(), "Q4")
            && !same_text(ps.as_str(), "K") && !same_text(ps.as_str(), "M");
        if keep {
            kept.push(p.clone());
        }
        i += 1;
    }
    assert(sp.take(i as int) =~= sp);
    let ghost all = kept_parts(sp);
    let ghost first = if all.len() <= 3 { all } else { all.take(3) };
    let n = if kept.len() <= 3 { kept.len() } else { 3 };
    let mut joined = String::new();
    let mut j: usize = 0;
    while j < n
        invariant
            j <= n,
            n == first.len(),
            n <= kept@.len(),
            forall|k: int| 0 <= k < n ==> #[trigger] kept@[k]@ == first[k],
            joined@ == dash_joined(first.take(j as int)),
        decreases n - j,
    {
        assert(first.take(j + 1).drop_last() =~= first.take(j as int));
        if j > 0 {
            joined.append("-");
        }
        append_chars(&mut joined, &kept[j]);
        j += 1;
    }
    assert(first.take(j as int) =~= first);
    lowercase(joined.as_str())
}

fn display_name_of(repo: &[char]) -> (r: String)
    ensures
        r@ == display_name(repo@),
{
    proof {
        reveal_strlit("-GGUF");
        reveal_strlit("-Q4_K_M");
        reveal_strlit("_");
    }
    let a = replace_text(repo, "-GGUF", "");
    let b = replace_text(&a, "-Q4_K_M", "");
    let c = replace_text(&b, "_", " ");
    string_of(&c)
}

/// The model that `file` of repository `model_id` offers.
fn model_of(model_id: &str, file: &RepoFile) -> (r: ModelInfo)
    ensures
        describes(r, model_id@, *file),
{
    let whole = char_vec(model_id);
    let mut tail: Vec<char> = Vec::new();
    let mut i: usize = 0;
    while i < whole.len()
        invariant
            i <= whole@.len(),
            whole@ == model_id@,
            tail@ == last_segment(whole@.take(i as int)),
        decreases whole@.len() - i,
    {
        assert(whole@.take(i + 1).drop_last() =~= whole@.take(i as int));
        if whole[i] == '/' {
            tail = Vec::new();
        } else {
            tail.push(whole[i]);
        }
        i += 1;
    }
    assert(whole@.take(i as int) =~= model_id@);
    let parts = split_at_chars(model_id, '/', None);
    let mut url = String::from_str("https://huggingface.co/");
    url.append(model_id);
    url.append("/resolve/main/");
    url.append(file.path.as_str());
    let mut description = String::from_str("Q4_K_M • ");
    description.append(file.size_label.as_str());
    description.append(" • by ");
    append_chars(&mut description, &parts[0]);
    let id = short_id_of(&tail);
    let name = display_name_of(&tail);
    ModelInfo { id, name, url, size_mb: (file.size / 1_000_000) as usize, description }
}

impl ModelRegistry {
    pub fn new() -> Self {
        ModelRegistry
    }

    /// How many of `listed` repositories have their files inspected.
    pub fn repos_to_inspect(&self, listed: usize) -> (r: usize)
        ensures
            r == if listed <= MAX_REPOS { listed } else { MAX_REPOS },
    {
        if listed <= MAX_REPOS {
            listed
        } else {
            MAX_REPOS
        }
    }

    /// The models offered by the listed repositories: for each of the first
    /// few whose files are known, one model for its first Q4_K_M GGUF file.
    pub fn models_from_listing(&self, repos: &[RepoListing]) -> (r: Result<Vec<ModelInfo>, EmoError>)
        ensures
            repos@.len() == 0 ==> (r matches Err(EmoError::ConfigError(m)) && m@ == "No models found from HuggingFace"@),
            repos@.len() > 0 && listed_picks(repos@).len() == 0 ==> (r matches Err(EmoError::ConfigError(m))
                && m@ == "No compatible GGUF models found"@),
            repos@.len() > 0 && listed_picks(repos@).len() > 0 ==> (r matches Ok(ms) && ms@.len()
                == listed_picks(repos@).len() && forall|k: int|
                0 <= k < ms@.len() ==> #[trigger] describes(
                    ms@[k],
                    repos@[listed_picks(repos@)[k].0].model_id@,
                    repos@[listed_picks(repos@)[k].0].files->0@[listed_picks(repos@)[k].1],
                )),
    {
        if repos.len() == 0 {
            return Err(EmoError::ConfigError(String::from_str("No models found from HuggingFace")));
        }
        let n = self.repos_to_inspect(repos.len());
        let mut models: Vec<ModelInfo> = Vec::new();
        let mut i: usize = 0;
        while i < n
            invariant
                i <= n,
                n <= repos@.len(),
                models@.len() == picked_files(repos@, i as int).len(),
                forall|k: int| 0 <= k < models@.len() ==> #[trigger] describes(
                    models@[k],
                    repos@[picked_files(repos@, i as int)[k].0].model_id@,
                    repos@[picked_files(repos@, i as int)[k].0].files->0@[picked_files(repos@, i as int)[k].1],
                ),
                forall|k: int| 0 <= k < picked_files(repos@, i as int).len() ==> {
                    let (a, b) = #[trigger] picked_files(repos@, i as int)[k];
                    &&& 0 <= a < i
                    &&& repos@[a].files is Some
                    &&& 0 <= b < repos@[a].files->0@.len()
                },
            decreases n - i,
        {
            let ghost before = picked_files(repos@, i as int);
            let repo = &repos[i];
            match &repo.files {
                Some(files) => {
                    let mut j: usize = 0;
                    let mut found = false;
                    while j < files.len() && !found
                        invariant
                            j <= files@.len(),
                            first_q4_file(files@.take(j as int)) is None,
                            found ==> j < files@.len() && is_q4_gguf_spec(files@[j as int].path@),
                        decreases files@.len() - j + if found { 0int } else { 1int },
                    {
                        assert(files@.take(j + 1).drop_last() =~= files@.take(j as int));
                        if is_q4_gguf(files[j].path.as_str()) {
                            found = true;
                        } else {
                            j += 1;
                        }
                    }
                    proof {
                        lemma_first_q4_prefix(files@, j as int);
                    }
                    if found {
                        let m = model_of(repo.model_id.as_str(), &files[j]);
                        models.push(m);
                        assert(repos@[i as int].files == Some(*files));
                        assert(first_q4_file(files@) == Some(j as int));
                        assert(picked_files(repos@, i + 1) =~= before.push((i as int, j as int)));
                        assert forall|k: int| 0 <= k < models@.len() implies #[trigger] describes(
                            models@[k],
                            repos@[picked_files(repos@, i + 1)[k].0].model_id@,
                            repos@[picked_files(repos@, i + 1)[k].0].files->0@[picked_files(repos@, i + 1)[k].1],
                        ) by {
                            if k < before.len() {
                                assert(picked_files(repos@, i + 1)[k] == before[k]);
                            }
                        }
                    } else {
                        assert(files@.take(j as int) =~= files@);
                        assert(repos@[i as int].files == Some(*files));
                        assert(picked_files(repos@, i + 1) =~= before);
                    }
                },
                None => {
                    assert(picked_files(repos@, i + 1) =~= before);
                },
            }
            i += 1;
        }
        if models.len() == 0 {
            return Err(EmoError::ConfigError(String::from_str("No compatible GGUF models found")));
        }
        Ok(models)
    }
}

/// A Q4_K_M GGUF file after a prefix with none is the first of the list.
proof fn lemma_first_q4_prefix(files: Seq<RepoFile>, j: int)
    requires
        0 <= j <= files.len(),
        first_q4_file(files.take(j)) is None,
    ensures
        j < files.len() && is_q4_gguf_spec(files[j].path@) ==> first_q4_file(files) == Some(j),
    decreases files.len() - j,
{
    if j < files.len() && is_q4_gguf_spec(files[j].path@) {
        assert(files.take(j + 1).drop_last() =~= files.take(j));
        lemma_first_q4_stays(files, j + 1);
    }
}

/// A first Q4_K_M GGUF file found in a prefix stays the first.
proof fn lemma_first_q4_stays(files: Seq<RepoFile>, m: int)
    requires
        0 <= m <= files.len(),
        first_q4_file(files.take(m)) is Some,
    ensures
        first_q4_file(files) == first_q4_file(files.take(m)),
    decreases files.len() - m,
{
    if m == files.len() {
        assert(files.take(m) =~= files);
    } else {
        assert(files.take(m + 1).drop_last() =~= files.take(m));
        lemma_first_q4_stays(files, m + 1);
    }
}

/// The model with id `id`, or the first model when no id is given.
pub fn choose_model<'a>(models: &'a [ModelInfo], id: Option<&str>) -> (r: Result<&'a ModelInfo, EmoError>)
    ensures
        models@.len() == 0 ==> (r matches Err(EmoError::ConfigError(m)) && m@ == "No models available from HuggingFace"@),
        models@.len() > 0 && id is None ==> (r matches Ok(m) && *m == models@[0]),
        models@.len() > 0 && id is Some ==> match r {
            Ok(m) => exists|k: int| 0 <= k < models@.len() && *m == models@[k] && models@[k].id@ == id->0@
                && forall|j: int| 0 <= j < k ==> #[trigger] models@[j].id@ != id->0@,
            Err(e) => (e matches EmoError::ConfigError(m) && m@ == "Model '"@ + id->0@ + "' not found"@) && forall|j: int|
                0 <= j < models@.len() ==> #[trigger] models@[j].id@ != id->0@,
        },
{
    if models.len() == 0 {
        return Err(EmoError::ConfigError(String::from_str("No models available from HuggingFace")));
    }
    match id {
        None => Ok(&models[0]),
        Some(want) => {
            let mut k: usize = 0;
            while k < models.len()
                invariant
                    k <= models@.len(),
                    id == Some(want),
                    forall|j: int| 0 <= j < k ==> #[trigger] models@[j].id@ != want@,
                decreases models@.len() - k,
            {
                if same_text(models[k].id.as_str(), want) {
                    assert(models@[k as int].id@ == id->0@);
                    return Ok(&models[k]);
                }
                k += 1;
            }
            let mut msg = String::from_str("Model '");
            msg.append(want);
            msg.append("' not found");
            Err(EmoError::ConfigError(msg))
        },
    }
}

/// The `owner/repo` of a model URL `https://host/owner/repo/...`: its fourth
/// and fifth `/`-separated parts, when it has more than five.
pub open spec fn repo_of_url(url: Seq<char>) -> Option<Seq<char>> {
    let parts = split_parts(url, '/', None);
    if parts.len() > 5 {
        Some(parts[3] + "/"@ + parts[4])
    } else {
        None
    }
}

/// The `owner/repo` of a model URL, for the hub's download API.
pub fn repo_id_of_url(url: &str) -> (r: Option<String>)
    ensures
        match r {
            Some(s) => repo_of_url(url@) == Some(s@),
            None => repo_of_url(url@) is None,
        },
{
    let parts = split_at_chars(url, '/', None);
    if parts.len() > 5 {
        let mut s = string_of(&parts[3]);
        s.append("/");
        append_chars(&mut s, &parts[4]);
        Some(s)
    } else {
        None
    }
}

} // verus!
