//! Where the voice models that render the clause recordings are installed.
use vstd::prelude::*;
use crate::text::str_eq;

verus! {

/// Directory, under the home directory, that holds the voice models.
pub const PIPER_VOICES_DIR: &'static str = ".local/share/piper-voices";

pub const DENIS_MODEL: &'static str = "ru/ru_RU/denis/medium/ru_RU-denis-medium.onnx";

pub const DENIS_CONFIG: &'static str = "ru/ru_RU/denis/medium/ru_RU-denis-medium.onnx.json";

pub const IRINA_MODEL: &'static str = "ru/ru_RU/irina/medium/ru_RU-irina-medium.onnx";

pub const IRINA_CONFIG: &'static str = "ru/ru_RU/irina/medium/ru_RU-irina-medium.onnx.json";

/// The path `rel` (a relative path) under `base`, as `Path::join` forms it:
/// a `/` goes between the two unless `base` is empty or already ends in `/`.
pub open spec fn join(base: Seq<char>, rel: Seq<char>) -> Seq<char> {
    if base.len() == 0 {
        rel
    } else if base.last() == '/' {
        base + rel
    } else {
        base + seq!['/'] + rel
    }
}

/// The model and config paths of `voice` under the home directory `home`,
/// or the message for a voice that has none.
pub open spec fn voice_model_paths_spec(home: Seq<char>, voice: Seq<char>) -> Result<
    (Seq<char>, Seq<char>),
    Seq<char>,
> {
    let root = join(home, PIPER_VOICES_DIR@);
    if voice == "denis"@ {
        Ok((join(root, DENIS_MODEL@), join(root, DENIS_CONFIG@)))
    } else if voice == "irina"@ {
        Ok((join(root, IRINA_MODEL@), join(root, IRINA_CONFIG@)))
    } else {
        Err("unknown voice: "@ + voice)
    }
}

/// Joins the relative path `rel` onto `base` (see `join`).
pub fn join_path(base: &str, rel: &str) -> (r: String)
    ensures
        r@ == join(base@, rel@),
{
    let n = base.unicode_len();
    let mut path = String::from_str(base);
    if n > 0 && base.get_char(n - 1) != '/' {
        proof {
            reveal_strlit("/");
        }
        path.append("/");
    }
    path.append(rel);
    path
}

/// The model and config paths of `voice` (`denis` or `irina`) under the
/// home directory `home`.
pub fn voice_model_paths(home: &str, voice: &str) -> (r: Result<(String, String), String>)
    ensures
        match (r, voice_model_paths_spec(home@, voice@)) {
            (Ok((m, c)), Ok((ms, cs))) => m@ == ms && c@ == cs,
            (Err(e), Err(es)) => e@ == es,
            _ => false,
        },
{
    let (model_rel, config_rel) = if str_eq(voice, "denis") {
        (DENIS_MODEL, DENIS_CONFIG)
    } else if str_eq(voice, "irina") {
        (IRINA_MODEL, IRINA_CONFIG)
    } else {
        let mut msg = String::from_str("unknown voice: ");
        msg.append(voice);
        return Err(msg);
    };
    let root = join_path(home, PIPER_VOICES_DIR);
    Ok((join_path(root.as_str(), model_rel), join_path(root.as_str(), config_rel)))
}

/// A joined path is `base`, then one `/` when `base` is not empty and does
/// not already end in `/`, then `rel`.
pub proof fn lemma_join(base: Seq<char>, rel: Seq<char>)
    ensures
        ({
            let sep: int = if base.len() > 0 && base.last() != '/' {
                1
            } else {
                0
            };
            let j = join(base, rel);
            &&& j.len() == base.len() + sep + rel.len()
            &&& j.take(base.len() as int) == base
            &&& j.skip(base.len() + sep) == rel
            &&& sep == 1 ==> j[base.len() as int] == '/'
        }),
{
    let j = join(base, rel);
    if base.len() > 0 && base.last() != '/' {
        assert(j.take(base.len() as int) =~= base);
        assert(j.skip(base.len() as int + 1) =~= rel);
    } else {
        assert(j.take(base.len() as int) =~= base);
        assert(j.skip(base.len() as int) =~= rel);
    }
}

} // verus!
