use vstd::prelude::*;

use std::sync::Arc;

use crate::service::{lookup, AocFunction, AocProblem, AocService};

verus! {

/// What the web application shares among its handlers.
#[derive(Clone)]
pub struct AppConfiguration {
    pub aoc_service: Arc<AocService>,
}

impl AppConfiguration {
    /// The default configuration: every solver registered, inputs under `www/aoc_input`.
    pub fn create_default() -> (r: AppConfiguration)
        ensures
            r.aoc_service.wf(),
            r.aoc_service.input_directory@ == "www/aoc_input"@,
            forall|p: AocProblem|
                #[trigger] lookup(r.aoc_service@, p) == if p == (AocProblem {
                    year: 2022,
                    day: 11,
                    part: 1,
                }) {
                    Some(AocFunction::MonkeyBusiness)
                } else if p == (AocProblem { year: 2022, day: 11, part: 2 }) {
                    Some(AocFunction::ManagedMonkeyBusiness)
                } else {
                    None
                },
    {
        let dir: String = "www/aoc_input".to_owned();
        AppConfiguration { aoc_service: Arc::new(AocService::create_default(dir)) }
    }
}

} // verus!
