//! What to extract: the Lean project and the modules whose declarations
//! form the snapshot.
use vstd::prelude::*;
use crate::error::SieveError;
use crate::strings::{blank, copy_text, is_blank, text_eq, text_from, texts_view};

verus! {

/// The Lean project to run the extractor in and the modules to import.
#[derive(Clone, Debug)]
pub struct ExtractionConfig {
    pub project: String,
    pub modules: Vec<String>,
}

/// The first occurrence of each of the first `n` names, in order.
pub open spec fn first_occurrences(names: Seq<Seq<char>>, n: int) -> Seq<Seq<char>>
    decreases n,
{
    if n <= 0 {
        Seq::empty()
    } else {
        let prev = first_occurrences(names, n - 1);
        if prev.contains(names[n - 1]) {
            prev
        } else {
            prev.push(names[n - 1])
        }
    }
}

impl ExtractionConfig {
    /// A configuration importing each named module once, in the order first
    /// given. Refuses an empty module list and a blank module name.
    pub fn new(project: &str, modules: Vec<String>) -> (r: Result<ExtractionConfig, SieveError>)
        ensures
            modules@.len() == 0 ==> r is Err,
            r is Ok <==> modules@.len() > 0 && forall|k: int| 0 <= k < modules@.len() ==> !blank(#[trigger] modules@[k]@),
            r matches Err(e) ==> e.message@ == if modules@.len() == 0 {
                "at least one --import module is required"@
            } else {
                "imported module names cannot be empty"@
            },
            r matches Ok(c) ==> c.project@ == project@
                && texts_view(c.modules@) == first_occurrences(texts_view(modules@), modules@.len() as int),
    {
        if modules.len() == 0 {
            return Err(SieveError::new("at least one --import module is required"));
        }
        let mut k: usize = 0;
        while k < modules.len()
            invariant
                k <= modules@.len(),
                forall|j: int| 0 <= j < k ==> !blank(#[trigger] modules@[j]@),
            decreases modules@.len() - k,
        {
            if is_blank(modules[k].as_str()) {
                return Err(SieveError::new("imported module names cannot be empty"));
            }
            k = k + 1;
        }
        let ghost names = texts_view(modules@);
        let mut unique: Vec<String> = Vec::new();
        let mut k: usize = 0;
        while k < modules.len()
            invariant
                names == texts_view(modules@),
                k <= modules@.len(),
                texts_view(unique@) == first_occurrences(names, k as int),
            decreases modules@.len() - k,
        {
            let mut seen = false;
            let mut j: usize = 0;
            while j < unique.len()
                invariant
                    k < modules@.len(),
                    j <= unique@.len(),
                    seen <==> exists|i: int| 0 <= i < j && #[trigger] unique@[i]@ == modules@[k as int]@,
                decreases unique@.len() - j,
            {
                if text_eq(unique[j].as_str(), modules[k].as_str()) {
                    seen = true;
                }
                j = j + 1;
            }
            proof {
                let prev = first_occurrences(names, k as int);
                assert(names[k as int] == modules@[k as int]@);
                if seen {
                    let i = choose|i: int| 0 <= i < j && #[trigger] unique@[i]@ == modules@[k as int]@;
                    assert(texts_view(unique@)[i] == names[k as int]);
                } else {
                    assert(!prev.contains(names[k as int])) by {
                        if prev.contains(names[k as int]) {
                            let i = choose|i: int| 0 <= i < prev.len() && prev[i] == names[k as int];
                            assert(unique@[i]@ == texts_view(unique@)[i]);
                        }
                    }
                }
            }
            if !seen {
                let copy = copy_text(&modules[k]);
                let ghost before = unique@;
                unique.push(copy);
                proof {
                    assert(texts_view(unique@) == texts_view(before).push(modules@[k as int]@));
                }
            }
            k = k + 1;
        }
        Ok(ExtractionConfig { project: text_from(project), modules: unique })
    }
}

} // verus!
