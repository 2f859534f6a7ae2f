use vstd::prelude::*;

verus! {

/// What the caller asked the program to do.
#[derive(PartialEq, Eq, Structural, Clone, Copy, Debug)]
pub enum Usage {
    Generate,
    SolveOptimal,
    SolveLocal,
}

/// A parsed request: the usage, how many points to generate, which file to
/// read, the local-search time budget in seconds, and the largest point
/// count the generator accepts.
pub struct UserQuery {
    pub usage: Usage,
    pub points: u32,
    pub filename: String,
    pub time: u32,
    pub max_points: u32,
}

impl UserQuery {
    pub fn new() -> (q: UserQuery)
        ensures
            q.usage == Usage::SolveLocal,
            q.points == 0,
            q.filename@ == "points.json"@,
            q.time == 60,
            q.max_points == 1000000000,
    {
        proof {
            broadcast use vstd::string::to_string_from_display_ensures_for_str;

        }
        UserQuery {
            usage: Usage::SolveLocal,
            points: 0,
            filename: "points.json".to_string(),
            time: 60u32,
            max_points: 1000000000,
        }
    }
}

} // verus!
