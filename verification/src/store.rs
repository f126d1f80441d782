use vstd::prelude::*;
use crate::config::{mode_name, mode_name_spec, mode_of_name, mode_of_name_spec, Config, Mode};
use crate::text::{
    dec_digits, find_byte, format_stat, format_u64, lemma_dec_digits_value,
    lemma_index_of_first_at, lemma_stat_round_trip, parse_stat, parse_stat_spec, parse_u32,
    parse_u32_spec, stat_text, STAT_MAX,
};

verus! {

/// One persisted result: a configuration and its scaled statistic. Written
/// once, never mutated afterwards.
#[derive(Clone, Copy, PartialEq, Eq, Structural, Debug)]
pub struct Measurement {
    pub config: Config,
    pub stat_milli: u64,
}

impl Measurement {
    pub open spec fn wf(self) -> bool {
        self.config.wf() && self.stat_milli <= STAT_MAX
    }
}

/// The text of one record line: block size, population size, mode name and
/// statistic, space-separated, newline excluded.
pub open spec fn record_text(m: Measurement) -> Seq<u8> {
    dec_digits(m.config.block_size as nat) + seq![32u8] + dec_digits(m.config.num_boids as nat)
        + seq![32u8] + mode_name_spec(m.config.mode) + seq![32u8] + stat_text(m.stat_milli)
}

/// A record line parsed back into a measurement: four space-separated
/// fields, each well formed, with positive key fields. Anything else is
/// rejected as corrupt and skipped at load time.
pub open spec fn parse_record_spec(s: Seq<u8>) -> Option<Measurement> {
    match s.index_of_first(32u8) {
        None => None,
        Some(i) => {
            let rest1 = s.skip(i + 1);
            match (parse_u32_spec(s.take(i)), rest1.index_of_first(32u8)) {
                (Some(block_size), Some(j)) => {
                    let rest2 = rest1.skip(j + 1);
                    match (parse_u32_spec(rest1.take(j)), rest2.index_of_first(32u8)) {
                        (Some(num_boids), Some(k)) => {
                            match (mode_of_name_spec(rest2.take(k)), parse_stat_spec(
                                rest2.skip(k + 1),
                            )) {
                                (Some(mode), Some(stat)) => {
                                    if block_size > 0 && num_boids > 0 {
                                        Some(
                                            Measurement {
                                                config: Config { mode, num_boids, block_size },
                                                stat_milli: stat,
                                            },
                                        )
                                    } else {
                                        None
                                    }
                                },
                                _ => None,
                            }
                        },
                        _ => None,
                    }
                },
                _ => None,
            }
        },
    }
}

/// Formats a measurement as its record line.
pub fn format_record(m: &Measurement) -> (r: Vec<u8>)
    ensures
        r@ == record_text(*m),
{
    let mut out = format_u64(m.config.block_size as u64);
    out.push(32);
    let mut piece = format_u64(m.config.num_boids as u64);
    out.append(&mut piece);
    out.push(32);
    let mut piece = mode_name(m.config.mode);
    out.append(&mut piece);
    out.push(32);
    let mut piece = format_stat(m.stat_milli);
    out.append(&mut piece);
    proof {
        assert(out@ =~= record_text(*m));
    }
    out
}

/// Parses one line of the results table.
pub fn parse_record(s: &[u8]) -> (r: Option<Measurement>)
    ensures
        r == parse_record_spec(s@),
{
    let n = s.len();
    let i = match find_byte(s, 32) {
        Some(i) => i,
        None => {
            return None;
        },
    };
    let block_size = match parse_u32(&s[0..i]) {
        Some(b) => b,
        None => {
            proof {
                assert(s@.take(i as int) =~= s@.subrange(0, i as int));
            }
            return None;
        },
    };
    let rest1 = &s[i + 1..n];
    proof {
        assert(rest1@ =~= s@.skip(i + 1));
        assert(s@.take(i as int) =~= s@.subrange(0, i as int));
    }
    let n1 = rest1.len();
    let j = match find_byte(rest1, 32) {
        Some(j) => j,
        None => {
            return None;
        },
    };
    let num_boids = match parse_u32(&rest1[0..j]) {
        Some(b) => b,
        None => {
            proof {
                assert(rest1@.take(j as int) =~= rest1@.subrange(0, j as int));
            }
            return None;
        },
    };
    proof {
        assert(rest1@.take(j as int) =~= rest1@.subrange(0, j as int));
    }
    let rest2 = &rest1[j + 1..n1];
    proof {
        assert(rest2@ =~= rest1@.skip(j + 1));
    }
    let n2 = rest2.len();
    let k = match find_byte(rest2, 32) {
        Some(k) => k,
        None => {
            return None;
        },
    };
    let mode = match mode_of_name(&rest2[0..k]) {
        Some(m) => m,
        None => {
            proof {
                assert(rest2@.take(k as int) =~= rest2@.subrange(0, k as int));
            }
            return None;
        },
    };
    proof {
        assert(rest2@.take(k as int) =~= rest2@.subrange(0, k as int));
    }
    let stat = match parse_stat(&rest2[k + 1..n2]) {
        Some(v) => v,
        None => {
            proof {
                assert(rest2@.skip(k + 1) =~= rest2@.subrange(k + 1, n2 as int));
            }
            return None;
        },
    };
    proof {
        assert(rest2@.skip(k + 1) =~= rest2@.subrange(k + 1, n2 as int));
    }
    if block_size > 0 && num_boids > 0 {
        Some(Measurement { config: Config { mode, num_boids, block_size }, stat_milli: stat })
    } else {
        None
    }
}

/// A well-formed measurement survives the trip through its record line
/// unchanged: the three key fields and the statistic all round-trip.
pub proof fn lemma_record_round_trip(m: Measurement)
    requires
        m.wf(),
    ensures
        parse_record_spec(record_text(m)) == Some(m),
{
    let bs = dec_digits(m.config.block_size as nat);
    let nb = dec_digits(m.config.num_boids as nat);
    let mn = mode_name_spec(m.config.mode);
    let st = stat_text(m.stat_milli);
    let s = record_text(m);
    lemma_dec_digits_value(m.config.block_size as nat);
    lemma_dec_digits_value(m.config.num_boids as nat);
    assert(s[bs.len() as int] == 32);
    assert forall|w: int| 0 <= w < bs.len() implies s[w] != 32 by {
        assert(s[w] == bs[w]);
        assert(crate::text::is_digit(bs[w]));
    }
    lemma_index_of_first_at(s, 32, bs.len() as int);
    assert(s.take(bs.len() as int) =~= bs);
    let rest1 = s.skip(bs.len() as int + 1);
    assert(rest1 =~= nb + seq![32u8] + mn + seq![32u8] + st);
    assert(rest1[nb.len() as int] == 32);
    assert forall|w: int| 0 <= w < nb.len() implies rest1[w] != 32 by {
        assert(rest1[w] == nb[w]);
        assert(crate::text::is_digit(nb[w]));
    }
    lemma_index_of_first_at(rest1, 32, nb.len() as int);
    assert(rest1.take(nb.len() as int) =~= nb);
    let rest2 = rest1.skip(nb.len() as int + 1);
    assert(rest2 =~= mn + seq![32u8] + st);
    assert(rest2[mn.len() as int] == 32);
    assert forall|w: int| 0 <= w < mn.len() implies rest2[w] != 32 by {
        assert(rest2[w] == mn[w]);
    }
    lemma_index_of_first_at(rest2, 32, mn.len() as int);
    assert(rest2.take(mn.len() as int) =~= mn);
    assert(mode_of_name_spec(mn) == Some(m.config.mode));
    assert(rest2.skip(mn.len() as int + 1) =~= st);
    lemma_stat_round_trip(m.stat_milli);
}

/// Appending a well-formed record line to the persisted table and
/// reloading the whole table yields exactly the old table with that
/// measurement at its end.
pub proof fn lemma_store_round_trip(lines: Seq<Seq<u8>>, m: Measurement)
    requires
        m.wf(),
    ensures
        parse_table(lines.push(record_text(m))) == parse_table(lines).push(m),
{
    let f = |l: Seq<u8>| parse_record_spec(l);
    let grown = lines.push(record_text(m));
    grown.lemma_filter_map_take_succ(f, lines.len() as int);
    assert(grown.take(lines.len() as int) =~= lines);
    assert(grown.take(lines.len() as int + 1) =~= grown);
    lemma_record_round_trip(m);
    assert(parse_table(lines) + seq![m] =~= parse_table(lines).push(m));
}

/// First statistic recorded for a configuration, in file order.
pub open spec fn lookup_spec(t: Seq<Measurement>, c: Config) -> Option<u64>
    decreases t.len(),
{
    if t.len() == 0 {
        None
    } else if t[0].config == c {
        Some(t[0].stat_milli)
    } else {
        lookup_spec(t.drop_first(), c)
    }
}

/// Whether some record carries configuration `c`.
pub open spec fn contains_config(t: Seq<Measurement>, c: Config) -> bool {
    exists|i: int| 0 <= i < t.len() && t[i].config == c
}

/// A configuration has a recorded statistic exactly when some record
/// carries it.
pub proof fn lemma_lookup_contains(t: Seq<Measurement>, c: Config)
    ensures
        (lookup_spec(t, c) is Some) <==> contains_config(t, c),
    decreases t.len(),
{
    if t.len() == 0 {
    } else if t[0].config == c {
    } else {
        lemma_lookup_contains(t.drop_first(), c);
        if contains_config(t, c) {
            let w = choose|w: int| 0 <= w < t.len() && t[w].config == c;
            assert(t.drop_first()[w - 1] == t[w]);
        }
        if contains_config(t.drop_first(), c) {
            let w = choose|w: int| 0 <= w < t.drop_first().len() && t.drop_first()[w].config == c;
            assert(t[w + 1] == t.drop_first()[w]);
        }
    }
}

/// A record just appended is found afterwards, if its configuration was
/// absent before.
pub proof fn lemma_lookup_append(t: Seq<Measurement>, m: Measurement)
    requires
        lookup_spec(t, m.config) is None,
    ensures
        lookup_spec(t.push(m), m.config) == Some(m.stat_milli),
    decreases t.len(),
{
    if t.len() == 0 {
        assert(t.push(m)[0] == m);
    } else {
        assert(t.push(m).drop_first() =~= t.drop_first().push(m));
        lemma_lookup_append(t.drop_first(), m);
    }
}

/// Appending a record for one configuration never disturbs what lookup
/// returns for any other configuration.
pub proof fn lemma_lookup_append_other(t: Seq<Measurement>, m: Measurement, c: Config)
    requires
        c != m.config,
    ensures
        lookup_spec(t.push(m), c) == lookup_spec(t, c),
    decreases t.len(),
{
    if t.len() == 0 {
        assert(t.push(m)[0] == m);
        assert(t.push(m).drop_first() =~= Seq::<Measurement>::empty());
        assert(lookup_spec(Seq::<Measurement>::empty(), c) is None);
    } else {
        assert(t.push(m)[0] == t[0]);
        assert(t.push(m).drop_first() =~= t.drop_first().push(m));
        lemma_lookup_append_other(t.drop_first(), m, c);
    }
}

/// The views of a batch of raw lines.
pub open spec fn lines_views(lines: Seq<Vec<u8>>) -> Seq<Seq<u8>> {
    lines.map_values(|l: Vec<u8>| l@)
}

/// The table encoded by a batch of lines: every line that parses, in file
/// order; corrupt lines are skipped rather than aborting the load.
pub open spec fn parse_table(lines: Seq<Seq<u8>>) -> Seq<Measurement> {
    lines.filter_map(|l: Seq<u8>| parse_record_spec(l))
}

/// In-memory copy of the persisted results table: the sole source of truth
/// for what has already been measured across restarts.
pub struct ResultsStore {
    table: Vec<Measurement>,
}

impl View for ResultsStore {
    type V = Seq<Measurement>;

    closed spec fn view(&self) -> Seq<Measurement> {
        self.table@
    }
}

impl ResultsStore {
    /// A store with nothing measured yet.
    pub fn new() -> (s: ResultsStore)
        ensures
            s@ == Seq::<Measurement>::empty(),
    {
        ResultsStore { table: Vec::new() }
    }

    /// Loads the persisted table from its raw lines, skipping corrupt ones.
    pub fn from_lines(lines: &Vec<Vec<u8>>) -> (s: ResultsStore)
        ensures
            s@ == parse_table(lines_views(lines@)),
    {
        let ghost views = lines_views(lines@);
        let mut table: Vec<Measurement> = Vec::new();
        let mut i: usize = 0;
        proof {
            assert(views.take(0int).filter_map(|l: Seq<u8>| parse_record_spec(l))
                =~= Seq::<Measurement>::empty());
        }
        while i < lines.len()
            invariant
                i <= lines@.len(),
                views == lines_views(lines@),
                table@ == views.take(i as int).filter_map(|l: Seq<u8>| parse_record_spec(l)),
            decreases lines@.len() - i,
        {
            let parsed = parse_record(lines[i].as_slice());
            proof {
                views.lemma_filter_map_take_succ(|l: Seq<u8>| parse_record_spec(l), i as int);
                assert(views[i as int] == lines@[i as int]@);
            }
            match parsed {
                Some(m) => {
                    table.push(m);
                },
                None => {},
            }
            i = i + 1;
        }
        proof {
            assert(views.take(views.len() as int) =~= views);
        }
        ResultsStore { table }
    }

    /// Number of records held.
    pub fn len(&self) -> (r: usize)
        ensures
            r == self@.len(),
    {
        self.table.len()
    }

    /// The record at one position of the table.
    pub fn get(&self, i: usize) -> (r: Measurement)
        requires
            i < self@.len(),
        ensures
            r == self@[i as int],
    {
        self.table[i]
    }

    /// Looks a configuration up before computing: the first statistic
    /// recorded for it, if any.
    pub fn lookup(&self, c: &Config) -> (r: Option<u64>)
        ensures
            r == lookup_spec(self@, *c),
    {
        let mut i: usize = 0;
        proof {
            assert(self@.skip(0int) =~= self@);
        }
        while i < self.table.len()
            invariant
                i <= self@.len(),
                lookup_spec(self@, *c) == lookup_spec(self@.skip(i as int), *c),
            decreases self@.len() - i,
        {
            proof {
                assert(self@.skip(i as int)[0] == self@[i as int]);
                assert(self@.skip(i as int).drop_first() =~= self@.skip(i + 1));
            }
            if self.table[i].config == *c {
                return Some(self.table[i].stat_milli);
            }
            i = i + 1;
        }
        proof {
            assert(self@.skip(self@.len() as int) =~= Seq::<Measurement>::empty());
        }
        None
    }

    /// Appends one freshly computed record and hands back the line to
    /// persist. The store never overwrites or deduplicates: the caller
    /// guarantees, by looking up first, that the configuration is new.
    pub fn append(&mut self, m: Measurement) -> (line: Vec<u8>)
        ensures
            final(self)@ == old(self)@.push(m),
            line@ == record_text(m),
    {
        self.table.push(m);
        format_record(&m)
    }
}

} // verus!
