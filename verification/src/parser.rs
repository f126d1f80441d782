use vstd::prelude::*;
use crate::text::{parse_stat, parse_stat_spec, STAT_MAX};

verus! {

/// The marker that opens a sample line: `FPS` and a space.
pub open spec fn fps_marker() -> Seq<u8> {
    seq![70u8, 80u8, 83u8, 32u8]
}

/// The marker that opens a diagnostic line: `ERROR`.
pub open spec fn error_marker() -> Seq<u8> {
    seq![69u8, 82u8, 82u8, 79u8, 82u8]
}

/// A line carries a sample when it is the marker followed by a numeric
/// field, and nothing else; every other line is a non-match, never an error.
pub open spec fn parse_sample_spec(line: Seq<u8>) -> Option<u64> {
    if line.len() >= 4 && line.take(4) == fps_marker() {
        parse_stat_spec(line.skip(4))
    } else {
        None
    }
}

/// Extracts the scaled sample value from one line of the simulator's output.
pub fn parse_sample(line: &[u8]) -> (r: Option<u64>)
    ensures
        r == parse_sample_spec(line@),
        r matches Some(v) ==> v <= STAT_MAX,
{
    let n = line.len();
    if n < 4 {
        return None;
    }
    if line[0] != 70 || line[1] != 80 || line[2] != 83 || line[3] != 32 {
        proof {
            assert(line@.take(4)[0] == line@[0]);
            assert(line@.take(4)[1] == line@[1]);
            assert(line@.take(4)[2] == line@[2]);
            assert(line@.take(4)[3] == line@[3]);
        }
        return None;
    }
    proof {
        assert(line@.take(4) =~= fps_marker());
    }
    let rest = &line[4..n];
    proof {
        assert(rest@ =~= line@.skip(4));
    }
    parse_stat(rest)
}

/// Whether a line is a diagnostic the operator should see; such lines are
/// excluded from aggregation.
pub open spec fn is_error_line_spec(line: Seq<u8>) -> bool {
    line.len() >= 5 && line.take(5) == error_marker()
}

pub fn is_error_line(line: &[u8]) -> (r: bool)
    ensures
        r == is_error_line_spec(line@),
{
    if line.len() < 5 {
        return false;
    }
    if line[0] == 69 && line[1] == 82 && line[2] == 82 && line[3] == 79 && line[4] == 82 {
        proof {
            assert(line@.take(5) =~= error_marker());
        }
        true
    } else {
        proof {
            assert(line@.take(5)[0] == line@[0]);
            assert(line@.take(5)[1] == line@[1]);
            assert(line@.take(5)[2] == line@[2]);
            assert(line@.take(5)[3] == line@[3]);
            assert(line@.take(5)[4] == line@[4]);
        }
        false
    }
}

} // verus!
