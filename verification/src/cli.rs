//! The command-line surface the engine decides for itself: the direction
//! names and the prompt answers of the interactive loop.

use vstd::prelude::*;

use crate::module::Direction;

verus! {

/// The direction a caller asks for.
#[derive(Clone, Copy, PartialEq, Eq, Structural, Debug)]
pub enum CliDirection {
    /// The dependencies of the given module: outgoing imports.
    Dependencies,
    /// The dependents of the given module: incoming imports.
    Dependents,
}

/// The graph direction a requested direction maps to.
pub open spec fn spec_direction(d: CliDirection) -> Direction {
    match d {
        CliDirection::Dependencies => Direction::Outgoing,
        CliDirection::Dependents => Direction::Incoming,
    }
}

impl CliDirection {
    /// The graph direction this request walks: dependencies follow edges
    /// as inserted, dependents follow them reversed.
    pub fn direction(&self) -> (r: Direction)
        ensures
            r == spec_direction(*self),
    {
        match self {
            CliDirection::Dependencies => Direction::Outgoing,
            CliDirection::Dependents => Direction::Incoming,
        }
    }
}

/// The answers accepted at the interactive direction prompt.
pub open spec fn spec_parse_direction(line: Seq<char>) -> Option<CliDirection> {
    if line == seq!['0'] || line == seq![
        'd',
        'e',
        'p',
        'e',
        'n',
        'd',
        'e',
        'n',
        'c',
        'i',
        'e',
        's',
    ] {
        Some(CliDirection::Dependencies)
    } else if line == seq!['1'] || line == seq!['d', 'e', 'p', 'e', 'n', 'd', 'e', 'n', 't', 's'] {
        Some(CliDirection::Dependents)
    } else {
        None
    }
}

/// Parse one answer of the interactive direction prompt: `0` or
/// `dependencies` for dependencies, `1` or `dependents` for dependents,
/// anything else refused.
pub fn parse_direction_input(line: &Vec<char>) -> (r: Option<CliDirection>)
    ensures
        r == spec_parse_direction(line@),
{
    let zero = line.len() == 1 && line[0] == '0';
    let one = line.len() == 1 && line[0] == '1';
    let dependencies = line.len() == 12 && line[0] == 'd' && line[1] == 'e' && line[2] == 'p'
        && line[3] == 'e' && line[4] == 'n' && line[5] == 'd' && line[6] == 'e' && line[7] == 'n'
        && line[8] == 'c' && line[9] == 'i' && line[10] == 'e' && line[11] == 's';
    let dependents = line.len() == 10 && line[0] == 'd' && line[1] == 'e' && line[2] == 'p'
        && line[3] == 'e' && line[4] == 'n' && line[5] == 'd' && line[6] == 'e' && line[7] == 'n'
        && line[8] == 't' && line[9] == 's';
    proof {
        if zero {
            assert(line@ =~= seq!['0']);
        }
        if one {
            assert(line@ =~= seq!['1']);
        }
        if dependencies {
            assert(line@ =~= seq!['d', 'e', 'p', 'e', 'n', 'd', 'e', 'n', 'c', 'i', 'e', 's']);
        }
        if dependents {
            assert(line@ =~= seq!['d', 'e', 'p', 'e', 'n', 'd', 'e', 'n', 't', 's']);
        }
    }
    if zero || dependencies {
        Some(CliDirection::Dependencies)
    } else if one || dependents {
        Some(CliDirection::Dependents)
    } else {
        None
    }
}

/// The quit answer of the interactive prompt.
pub fn is_quit_input(line: &Vec<char>) -> (r: bool)
    ensures
        r == (line@ == seq!['q']),
{
    let q = line.len() == 1 && line[0] == 'q';
    proof {
        if q {
            assert(line@ =~= seq!['q']);
        }
    }
    q
}

} // verus!
