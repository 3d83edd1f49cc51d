//! Run options, built from the raw command-line values.

use crate::scanner::{glob_valid, pattern_is_valid};
use crate::utils::{parse_size, size_of};
use vstd::prelude::*;

verus! {

/// The raw values of a command line.
#[derive(Debug)]
pub struct Args {
    /// Base directory (A).
    pub base_dir: String,
    /// Target directory (B).
    pub target_dir: String,
    /// Output directory for the differences.
    pub output_dir: String,
    /// Glob patterns to ignore.
    pub ignore: Vec<String>,
    /// Normalise line ends before text comparison.
    pub normalize_eol: bool,
    /// Largest size for a text diff, such as `5MB` or `102400`.
    pub max_text_size: String,
    /// Only report what would be done.
    pub dry_run: bool,
}

/// The configuration of one run.
#[derive(Debug)]
pub struct Options {
    pub normalize_eol: bool,
    pub max_text_size: u64,
    pub ignore_patterns: Vec<String>,
    pub dry_run: bool,
}

/// Why a command line gives no options.
#[derive(Debug)]
pub enum OptionsError {
    /// The ignore pattern at `index` is not a glob pattern.
    InvalidPattern { index: usize, pattern: String },
}

impl OptionsError {
    /// The diagnostic for this error.
    pub fn message(&self) -> (out: String)
        ensures
            match self {
                OptionsError::InvalidPattern { pattern, .. } => out@ == "Invalid glob pattern: "@
                    + pattern@,
            },
    {
        match self {
            OptionsError::InvalidPattern { pattern, .. } => {
                let mut out = String::from_str("Invalid glob pattern: ");
                out.append(pattern.as_str());
                out
            },
        }
    }
}

/// Whether every pattern is a glob pattern.
pub open spec fn all_valid(patterns: Seq<String>) -> bool {
    forall|i: int| 0 <= i < patterns.len() ==> glob_valid(#[trigger] patterns[i]@)
}

impl Options {
    /// Every ignore pattern is a glob pattern.
    pub open spec fn wf(&self) -> bool {
        all_valid(self.ignore_patterns@)
    }
}

/// Builds the options of a run. Succeeds exactly when every ignore pattern
/// is a glob pattern, and otherwise names the first that is not.
pub fn build_options(args: &Args) -> (out: Result<Options, OptionsError>)
    ensures
        out is Ok <==> all_valid(args.ignore@),
        out matches Ok(o) ==> {
            &&& o.wf()
            &&& o.normalize_eol == args.normalize_eol
            &&& o.max_text_size as nat == size_of(args.max_text_size@)
            &&& o.ignore_patterns@ == args.ignore@
            &&& o.dry_run == args.dry_run
        },
        out matches Err(OptionsError::InvalidPattern { index, pattern }) ==> {
            &&& index < args.ignore.len()
            &&& pattern == args.ignore[index as int]
            &&& !glob_valid(pattern@)
            &&& all_valid(args.ignore@.take(index as int))
        },
{
    let mut patterns: Vec<String> = Vec::new();
    let mut i: usize = 0;
    while i < args.ignore.len()
        invariant
            i <= args.ignore.len(),
            patterns@ == args.ignore@.take(i as int),
            all_valid(patterns@),
        decreases args.ignore.len() - i,
    {
        let pattern = args.ignore[i].clone();
        if !pattern_is_valid(pattern.as_str()) {
            return Err(OptionsError::InvalidPattern { index: i, pattern });
        }
        patterns.push(pattern);
        proof {
            assert(patterns@ =~= args.ignore@.take(i + 1));
        }
        i += 1;
    }
    proof {
        assert(args.ignore@.take(args.ignore.len() as int) =~= args.ignore@);
    }
    Ok(
        Options {
            normalize_eol: args.normalize_eol,
            max_text_size: parse_size(args.max_text_size.as_str()),
            ignore_patterns: patterns,
            dry_run: args.dry_run,
        },
    )
}

} // verus!
