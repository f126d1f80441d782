use vstd::prelude::*;

verus! {

/// Algorithmic variant of the simulation under test.
#[derive(Clone, Copy, PartialEq, Eq, Structural, Debug)]
pub enum Mode {
    Naive,
    Uniform,
    Coherent,
}

/// One benchmark scenario: the key under which a measurement is cached.
/// Compared structurally, never by identity.
#[derive(Clone, Copy, PartialEq, Eq, Structural, Debug)]
pub struct Config {
    pub mode: Mode,
    pub num_boids: u32,
    pub block_size: u32,
}

impl Config {
    /// A configuration is meaningful only with a positive population
    /// and a positive block size.
    pub open spec fn wf(self) -> bool {
        self.num_boids > 0 && self.block_size > 0
    }

    pub fn new(mode: Mode, num_boids: u32, block_size: u32) -> (c: Config)
        requires
            num_boids > 0,
            block_size > 0,
        ensures
            c == (Config { mode, num_boids, block_size }),
            c.wf(),
    {
        Config { mode, num_boids, block_size }
    }
}

/// The name under which a mode is recorded in the results table.
pub open spec fn mode_name_spec(m: Mode) -> Seq<u8> {
    match m {
        Mode::Naive => seq![78, 97, 105, 118, 101],
        Mode::Uniform => seq![83, 99, 97, 116, 116, 101, 114, 101, 100],
        Mode::Coherent => seq![67, 111, 104, 101, 114, 101, 110, 116],
    }
}

/// The mode named by a byte string of the results table, if any.
pub open spec fn mode_of_name_spec(s: Seq<u8>) -> Option<Mode> {
    if s == mode_name_spec(Mode::Naive) {
        Some(Mode::Naive)
    } else if s == mode_name_spec(Mode::Uniform) {
        Some(Mode::Uniform)
    } else if s == mode_name_spec(Mode::Coherent) {
        Some(Mode::Coherent)
    } else {
        None
    }
}

/// The argument value that selects a mode on the simulator's command line.
pub open spec fn mode_arg_spec(m: Mode) -> Seq<u8> {
    match m {
        Mode::Naive => seq![78, 97, 105, 118, 101],
        Mode::Uniform => seq![
            83, 99, 97, 116, 116, 101, 114, 101, 100, 71, 114, 105, 100,
        ],
        Mode::Coherent => seq![
            67, 111, 104, 101, 114, 101, 110, 116, 71, 114, 105, 100,
        ],
    }
}

pub fn mode_name(m: Mode) -> (r: Vec<u8>)
    ensures
        r@ == mode_name_spec(m),
{
    let mut v: Vec<u8> = Vec::new();
    match m {
        Mode::Naive => {
            v.push(78);
            v.push(97);
            v.push(105);
            v.push(118);
            v.push(101);
        },
        Mode::Uniform => {
            v.push(83);
            v.push(99);
            v.push(97);
            v.push(116);
            v.push(116);
            v.push(101);
            v.push(114);
            v.push(101);
            v.push(100);
        },
        Mode::Coherent => {
            v.push(67);
            v.push(111);
            v.push(104);
            v.push(101);
            v.push(114);
            v.push(101);
            v.push(110);
            v.push(116);
        },
    }
    proof {
        assert(v@ =~= mode_name_spec(m));
    }
    v
}

pub fn mode_arg(m: Mode) -> (r: Vec<u8>)
    ensures
        r@ == mode_arg_spec(m),
{
    let mut v: Vec<u8> = Vec::new();
    match m {
        Mode::Naive => {
            v.push(78);
            v.push(97);
            v.push(105);
            v.push(118);
            v.push(101);
        },
        Mode::Uniform => {
            v.push(83);
            v.push(99);
            v.push(97);
            v.push(116);
            v.push(116);
            v.push(101);
            v.push(114);
            v.push(101);
            v.push(100);
            v.push(71);
            v.push(114);
            v.push(105);
            v.push(100);
        },
        Mode::Coherent => {
            v.push(67);
            v.push(111);
            v.push(104);
            v.push(101);
            v.push(114);
            v.push(101);
            v.push(110);
            v.push(116);
            v.push(71);
            v.push(114);
            v.push(105);
            v.push(100);
        },
    }
    proof {
        assert(v@ =~= mode_arg_spec(m));
    }
    v
}

/// The mode named by a slice of the results table, if any.
pub fn mode_of_name(s: &[u8]) -> (r: Option<Mode>)
    ensures
        r == mode_of_name_spec(s@),
{
    let naive = mode_name(Mode::Naive);
    if crate::text::bytes_eq(s, naive.as_slice()) {
        return Some(Mode::Naive);
    }
    let uniform = mode_name(Mode::Uniform);
    if crate::text::bytes_eq(s, uniform.as_slice()) {
        return Some(Mode::Uniform);
    }
    let coherent = mode_name(Mode::Coherent);
    if crate::text::bytes_eq(s, coherent.as_slice()) {
        return Some(Mode::Coherent);
    }
    None
}

} // verus!
