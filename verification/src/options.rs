//! Configuration for the two phases: training (chain order and text
//! normalization) and generation (seed, length bounds, terminator,
//! iteration count), plus the raw argument bundle they are built from.

use vstd::prelude::*;
use vstd::string::*;

verus! {

pub const DEFAULT_ORDER: u8 = 2;
pub const DEFAULT_MAX_WORDS: usize = 20;
pub const DEFAULT_MIN_WORDS: usize = 1;
pub const DEFAULT_ITERATIONS: u16 = 1;
/// How many times a generation attempt is repeated when a required
/// terminator was not reached.
pub const TERMINATOR_RETRY_LIMIT: u16 = 10;

/// The raw, already-parsed command-line surface: everything optional
/// except the corpus location and the two flags.
#[derive(Debug, Clone)]
pub struct RyazonArgs {
    pub texts_path: String,
    pub output_path: Option<String>,
    pub order: Option<u8>,
    pub seed: Option<String>,
    pub max_words: Option<usize>,
    pub min_words: Option<usize>,
    pub terminator: Option<String>,
    pub remove_urls: bool,
    pub remove_punctuation: bool,
    pub add_punctuation: Option<String>,
    pub iterations: Option<u16>,
}

/// Options fixed before training starts.
#[derive(Debug, Clone)]
pub struct TrainingOptions {
    pub order: u8,
    pub path: String,
    pub remove_urls: bool,
    pub remove_punctuation: bool,
    pub add_punctuation: Option<String>,
}

/// Options for one generation invocation.
#[derive(Debug, Clone)]
pub struct GenerationOptions {
    pub seed: Option<String>,
    pub terminator: Option<String>,
    pub max_words: usize,
    pub min_words: usize,
    pub iterations: u16,
}

impl core::convert::From<RyazonArgs> for TrainingOptions {
    fn from(args: RyazonArgs) -> Self {
        TrainingOptions {
            order: match args.order {
                Some(o) => o,
                None => DEFAULT_ORDER,
            },
            path: args.texts_path,
            remove_urls: args.remove_urls,
            remove_punctuation: args.remove_punctuation,
            add_punctuation: args.add_punctuation,
        }
    }
}

impl vstd::std_specs::convert::FromSpecImpl<RyazonArgs> for TrainingOptions {
    open spec fn obeys_from_spec() -> bool {
        true
    }

    open spec fn from_spec(args: RyazonArgs) -> Self {
        TrainingOptions {
            order: match args.order {
                Some(o) => o,
                None => DEFAULT_ORDER,
            },
            path: args.texts_path,
            remove_urls: args.remove_urls,
            remove_punctuation: args.remove_punctuation,
            add_punctuation: args.add_punctuation,
        }
    }
}

impl core::default::Default for TrainingOptions {
    fn default() -> (r: Self)
        ensures
            r.order == DEFAULT_ORDER,
            r.path@ == Seq::<char>::empty(),
            r.remove_urls == true,
            r.remove_punctuation == false,
            r.add_punctuation is None,
    {
        TrainingOptions {
            order: DEFAULT_ORDER,
            path: String::new(),
            remove_urls: true,
            remove_punctuation: false,
            add_punctuation: None,
        }
    }
}

impl core::convert::From<RyazonArgs> for GenerationOptions {
    fn from(args: RyazonArgs) -> Self {
        GenerationOptions {
            seed: args.seed,
            terminator: args.terminator,
            max_words: match args.max_words {
                Some(m) => m,
                None => DEFAULT_MAX_WORDS,
            },
            min_words: match args.min_words {
                Some(m) => m,
                None => DEFAULT_MIN_WORDS,
            },
            iterations: match args.iterations {
                Some(i) => i,
                None => DEFAULT_ITERATIONS,
            },
        }
    }
}

impl vstd::std_specs::convert::FromSpecImpl<RyazonArgs> for GenerationOptions {
    open spec fn obeys_from_spec() -> bool {
        true
    }

    open spec fn from_spec(args: RyazonArgs) -> Self {
        GenerationOptions {
            seed: args.seed,
            terminator: args.terminator,
            max_words: match args.max_words {
                Some(m) => m,
                None => DEFAULT_MAX_WORDS,
            },
            min_words: match args.min_words {
                Some(m) => m,
                None => DEFAULT_MIN_WORDS,
            },
            iterations: match args.iterations {
                Some(i) => i,
                None => DEFAULT_ITERATIONS,
            },
        }
    }
}

impl core::default::Default for GenerationOptions {
    fn default() -> (r: Self)
        ensures
            r.seed matches Some(s) && s@ == "default_seed"@,
            r.terminator is None,
            r.max_words == DEFAULT_MAX_WORDS,
            r.min_words == DEFAULT_MIN_WORDS,
            r.iterations == DEFAULT_ITERATIONS,
    {
        let mut seed = String::new();
        seed.append("default_seed");
        GenerationOptions {
            seed: Some(seed),
            terminator: None,
            max_words: DEFAULT_MAX_WORDS,
            min_words: DEFAULT_MIN_WORDS,
            iterations: DEFAULT_ITERATIONS,
        }
    }
}

impl GenerationOptions {
    pub fn new(
        seed: Option<String>,
        terminator: Option<String>,
        max_words: usize,
        min_words: usize,
        iterations: u16,
    ) -> (r: Self)
        ensures
            r.seed == seed,
            r.terminator == terminator,
            r.max_words == max_words,
            r.min_words == min_words,
            r.iterations == iterations,
    {
        Self { seed, terminator, max_words, min_words, iterations }
    }
}

} // verus!
