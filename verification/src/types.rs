//! Plain data passed between the stages of the synthesis pipeline, and its error type.
use vstd::prelude::*;

verus! {

/// One pronounced syllable: its jamo triple and where it comes from.
#[derive(Debug, Clone, PartialEq, Eq)]
pub struct PronSyllable {
    pub cvc: Vec<u8>,
    pub word_idx: usize,
    pub is_word_start: bool,
    pub pos: [u8; 2],
    pub morph_idx: u8,
    pub morph_pos: u8,
}

/// The pronunciation of a text.
#[derive(Debug, Clone, PartialEq, Eq)]
pub struct PronText {
    pub syllables: Vec<PronSyllable>,
    pub phoneme_codes: Vec<u8>,
    pub word_morphs: Vec<WordMorphInfo>,
    pub word_sen: Vec<u8>,
}

impl PronText {
    /// The empty pronunciation.
    pub fn new() -> (r: PronText)
        ensures
            r.syllables@.len() == 0,
            r.phoneme_codes@.len() == 0,
            r.word_morphs@.len() == 0,
            r.word_sen@.len() == 0,
    {
        PronText {
            syllables: Vec::new(),
            phoneme_codes: Vec::new(),
            word_morphs: Vec::new(),
            word_sen: Vec::new(),
        }
    }
}

/// The morphemes of one word.
#[derive(Debug, Clone, PartialEq, Eq)]
pub struct WordMorphInfo {
    pub pos: Vec<u8>,
    pub first_chars: Vec<u16>,
    pub surfaces: Vec<Vec<u16>>,
    pub source: Vec<u16>,
}

impl WordMorphInfo {
    /// A word with no morphemes.
    pub fn new() -> (r: WordMorphInfo)
        ensures
            r.pos@.len() == 0,
            r.first_chars@.len() == 0,
            r.surfaces@.len() == 0,
            r.source@.len() == 0,
    {
        WordMorphInfo { pos: Vec::new(), first_chars: Vec::new(), surfaces: Vec::new(), source: Vec::new() }
    }
}

/// Why synthesis failed.
#[derive(Debug, Clone, PartialEq, Eq)]
pub enum PipelineError {
    Engine(&'static str, String),
    EmptyInput,
    EmptyOutput,
    BadParam(String),
}

/// The message of an error.
pub open spec fn error_message(e: PipelineError) -> Seq<char> {
    match e {
        PipelineError::Engine(name, msg) => "engine '"@ + name@ + "': "@ + msg@,
        PipelineError::EmptyInput => "input text is empty"@,
        PipelineError::EmptyOutput => "synthesis result is empty"@,
        PipelineError::BadParam(msg) => "invalid parameter: "@ + msg@,
    }
}

impl PipelineError {
    /// The message shown for this error.
    pub fn message(&self) -> (r: String)
        ensures
            r@ == error_message(*self),
    {
        match self {
            PipelineError::Engine(name, msg) => {
                let mut s = String::new();
                s.append("engine '");
                s.append(name);
                s.append("': ");
                s.append(msg.as_str());
                proof {
                    assert(s@ =~= error_message(*self));
                }
                s
            },
            PipelineError::EmptyInput => {
                let mut s = String::new();
                s.append("input text is empty");
                proof {
                    assert(s@ =~= error_message(*self));
                }
                s
            },
            PipelineError::EmptyOutput => {
                let mut s = String::new();
                s.append("synthesis result is empty");
                proof {
                    assert(s@ =~= error_message(*self));
                }
                s
            },
            PipelineError::BadParam(msg) => {
                let mut s = String::new();
                s.append("invalid parameter: ");
                s.append(msg.as_str());
                proof {
                    assert(s@ =~= error_message(*self));
                }
                s
            },
        }
    }
}

/// Where the dictionaries are installed by default.
pub const DEFAULT_DATA_DIR: &'static str = "/usr/share/apps/kttsdb";

/// The directory given on the command line if any, else a non-empty one from the
/// environment, else nothing.
pub open spec fn chosen_dir(cli_dir: Option<Seq<char>>, env_dir: Option<Seq<char>>) -> Option<Seq<char>> {
    match cli_dir {
        Some(d) => Some(d),
        None => match env_dir {
            Some(e) => if e.len() > 0 {
                Some(e)
            } else {
                None
            },
            None => None,
        },
    }
}

/// The dictionary directory: the command-line one, then a non-empty `$KTTSDB_DIR`, then
/// the default install path.
pub fn resolve_data_dir(cli_dir: Option<&str>, env_dir: Option<&str>) -> (r: String)
    ensures
        r@ == match chosen_dir(
            match cli_dir {
                Some(s) => Some(s@),
                None => None::<Seq<char>>,
            },
            match env_dir {
                Some(s) => Some(s@),
                None => None::<Seq<char>>,
            },
        ) {
            Some(d) => d,
            None => DEFAULT_DATA_DIR@,
        },
{
    match resolve_data_dir_embedded(cli_dir, env_dir) {
        Some(d) => d,
        None => {
            let mut s = String::new();
            s.append(DEFAULT_DATA_DIR);
            s
        },
    }
}

/// The dictionary directory when the dictionaries are built into the program: the
/// command-line one, then a non-empty `$KTTSDB_DIR`; `None` selects the built-in ones.
pub fn resolve_data_dir_embedded(cli_dir: Option<&str>, env_dir: Option<&str>) -> (r: Option<String>)
    ensures
        match chosen_dir(
            match cli_dir {
                Some(s) => Some(s@),
                None => None::<Seq<char>>,
            },
            match env_dir {
                Some(s) => Some(s@),
                None => None::<Seq<char>>,
            },
        ) {
            Some(d) => r matches Some(x) && x@ == d,
            None => r is None,
        },
{
    match cli_dir {
        Some(d) => {
            let mut s = String::new();
            s.append(d);
            Some(s)
        },
        None => match env_dir {
            Some(e) => if !e.is_empty() {
                let mut s = String::new();
                s.append(e);
                Some(s)
            } else {
                None
            },
            None => None,
        },
    }
}

} // verus!
