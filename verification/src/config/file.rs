//! The configuration file. Unknown keys are rejected rather than ignored: a
//! silently dropped `max_position_size` typo only surfaces as a position four
//! times larger than intended. Every key may be left out, and so may every
//! table.
use vstd::prelude::*;
use toml::Value;
use crate::config::{
    Config, ConfigView, DiscoverySettings, DiscoveryView, ExecutorSettings, RecorderSettings,
    RecorderView, RegistrySettings, RiskSettings, VenueSettings, VenueView, Venues,
};
use crate::document::{self, Toml};
use crate::exec::atomic::DEFAULT_TIMEOUT_MS;
use crate::health::DEFAULT_MAX_IDLE_MS;
use crate::solver::types::SolverConfig;
use crate::text;
use crate::types::Ratio;

verus! {

// ---------------------------------------------------------------------------
// Decimals
// ---------------------------------------------------------------------------

/// What stands before the point of a decimal.
pub open spec fn whole(t: Seq<char>) -> Seq<char> {
    t.subrange(0, text::first_index(t, '.'))
}

/// What stands behind the point of a decimal.
pub open spec fn fraction(t: Seq<char>) -> Seq<char> {
    let point = text::first_index(t, '.');
    if point < t.len() {
        t.subrange(point + 1, t.len() as int)
    } else {
        Seq::empty()
    }
}

/// Digits, and digits behind a point if there is one.
pub open spec fn is_plain(t: Seq<char>) -> bool {
    whole(t).len() > 0 && text::all_digits(whole(t)) && text::all_digits(fraction(t))
}

/// The decimal of a number that is not negative. Zero has two.
pub open spec fn magnitude(t: Seq<char>) -> Option<Seq<char>> {
    if is_plain(t) {
        Some(t)
    } else if t =~= seq!['-', '0'] {
        Some(seq!['0'])
    } else {
        None
    }
}

pub open spec fn tens(n: nat) -> int
    decreases n,
{
    if n == 0 {
        1
    } else {
        10 * tens((n - 1) as nat)
    }
}

/// How many of the first `n` digits behind the point are kept: as many as fit
/// with what stands before it.
pub open spec fn kept(front: Seq<char>, back: Seq<char>, n: nat) -> nat
    decreases n,
{
    if n == 0 || text::number(front + back.subrange(0, n as int)) <= u64::MAX {
        n
    } else {
        kept(front, back, (n - 1) as nat)
    }
}

/// How many digits behind a point are read at most.
pub open spec fn readable(back: Seq<char>) -> nat {
    if back.len() < 19nat {
        back.len()
    } else {
        19
    }
}

/// A plain decimal as a fraction. What is too fine to hold is dropped, and what is
/// too large is the largest there is.
pub open spec fn ratio_of(t: Seq<char>) -> Ratio {
    let digits = kept(whole(t), fraction(t), readable(fraction(t)));
    if text::number(whole(t)) > u64::MAX {
        Ratio { numer: u64::MAX, denom: 1 }
    } else {
        Ratio {
            numer: text::number(whole(t) + fraction(t).subrange(0, digits as int)) as u64,
            denom: tens(digits) as u64,
        }
    }
}

/// A digit that does not fit leaves no room for those behind it.
proof fn lemma_kept(front: Seq<char>, back: Seq<char>, n: nat, j: nat)
    requires
        text::all_digits(front),
        text::all_digits(back),
        j <= n <= back.len(),
        text::number(front + back.subrange(0, j as int)) <= u64::MAX,
        j < n ==> text::number(front + back.subrange(0, (j + 1) as int)) > u64::MAX,
    ensures
        kept(front, back, n) == j,
    decreases n,
{
    if j < n {
        let all = front + back.subrange(0, n as int);
        assert(text::all_digits(all)) by {
            assert forall|i: int| 0 <= i < all.len() implies text::is_digit(#[trigger] all[i]) by {
                if i < front.len() {
                    assert(all[i] == front[i]);
                } else {
                    assert(all[i] == back[i - front.len()]);
                }
            }
        }
        text::lemma_number_prefix(all, (front.len() + j + 1) as int);
        assert(all.subrange(0, (front.len() + j + 1) as int) =~= front + back.subrange(0, (j + 1) as int));
        lemma_kept(front, back, (n - 1) as nat, j);
    }
}

/// The thousandths of a run of digits that stands behind a point; a half rounds
/// up.
pub open spec fn thousandths(digits: Seq<char>) -> int {
    if digits.len() < 3 {
        text::number(digits) * tens((3 - digits.len()) as nat)
    } else if digits.len() == 3 || '5' > digits[3] {
        text::number(digits.subrange(0, 3))
    } else {
        text::number(digits.subrange(0, 3)) + 1
    }
}

/// A plain decimal in thousandths, or the most of them that fit.
pub open spec fn thousandths_of(t: Seq<char>) -> i64 {
    let n = text::number(whole(t)) * 1000 + thousandths(fraction(t));
    if n <= i64::MAX {
        n as i64
    } else {
        i64::MAX
    }
}

proof fn lemma_tens(n: nat)
    requires
        n <= 19,
    ensures
        1 <= tens(n) <= 10_000_000_000_000_000_000,
{
    reveal_with_fuel(tens, 20);
}

/// Splits a decimal at its point, if it is the decimal of a number that is not
/// negative.
fn split_decimal(s: &str) -> (parts: Option<(Vec<char>, Vec<char>)>)
    ensures
        match parts {
            Some((front, back)) => magnitude(s@) matches Some(t) && is_plain(t) && front@ == whole(t)
                && back@ == fraction(t),
            None => magnitude(s@) is None,
        },
{
    let all: Vec<char> = text::chars(s);
    if all.len() == 2 && all[0] == '-' && all[1] == '0' {
        let front: Vec<char> = vec!['0'];
        let back: Vec<char> = Vec::new();
        proof {
            assert(s@ =~= seq!['-', '0']);
            text::lemma_first_index_unique(s@, '.', 2);
            assert(whole(s@)[0] == '-');
            assert(!text::is_digit('-'));
            text::lemma_first_index_unique(seq!['0'], '.', 1);
            assert(whole(seq!['0']) =~= seq!['0']);
            assert(front@ =~= seq!['0']);
            assert(back@ =~= fraction(seq!['0']));
        }
        return Some((front, back));
    }
    let point: usize = text::find(all.as_slice(), '.');
    let mut front: Vec<char> = Vec::new();
    let mut back: Vec<char> = Vec::new();
    let mut i: usize = 0;
    while i < all.len()
        invariant
            i <= all@.len(),
            point <= all@.len(),
            front@ == all@.subrange(0, if i < point {
                i as int
            } else {
                point as int
            }),
            i <= point ==> back@.len() == 0,
            i > point ==> back@ == all@.subrange(point + 1, i as int),
        decreases all@.len() - i,
    {
        let c: char = all[i];
        if i < point {
            front.push(c);
        } else if i > point {
            back.push(c);
        }
        i = i + 1;
    }
    assert(front@ =~= whole(s@));
    assert(back@ =~= fraction(s@));
    if front.len() > 0 && text::digits(front.as_slice()) && text::digits(back.as_slice()) {
        Some((front, back))
    } else {
        None
    }
}

/// A number that has to be zero or more.
pub open spec fn not_negative(path: Seq<char>) -> Seq<char> {
    path + " must be a non-negative number"@
}

/// The least annualized return that a trade has to promise.
pub open spec fn return_in(value: Toml) -> Result<Ratio, Seq<char>> {
    match document::number_in(value, 2, "min_annualized_return"@) {
        Err(reason) => Err(reason),
        Ok(None) => Ok(Ratio { numer: 15, denom: 100 }),
        Ok(Some(t)) => match magnitude(t) {
            None => Err(not_negative("engine.min_annualized_return"@)),
            Some(t) => Ok(ratio_of(t)),
        },
    }
}

/// The fee multiplier of a venue, in thousandths.
pub open spec fn multiplier_in(value: Toml, name: Seq<char>) -> Result<Option<i64>, Seq<char>> {
    match document::number_in(value, 3, "fee_multiplier"@) {
        Err(reason) => Err(reason),
        Ok(None) => Ok(None),
        Ok(Some(t)) => match magnitude(t) {
            None => Err(not_negative("venues."@ + name + ".fee_multiplier"@)),
            Some(t) => Ok(Some(thousandths_of(t))),
        },
    }
}

fn read_ratio(front: &Vec<char>, back: &Vec<char>) -> (ratio: Ratio)
    requires
        text::all_digits(front@),
        text::all_digits(back@),
    ensures
        text::number(front@) > u64::MAX ==> ratio == (Ratio { numer: u64::MAX, denom: 1 }),
        text::number(front@) <= u64::MAX ==> {
            let digits = kept(front@, back@, readable(back@));
            &&& ratio.numer == text::number(front@ + back@.subrange(0, digits as int))
            &&& ratio.denom == tens(digits)
        },
{
    let mut numer: u128 = match text::parse_number(front.as_slice(), u64::MAX as u128) {
        Some(numer) => numer,
        None => return Ratio { numer: u64::MAX, denom: 1 },
    };
    let most: usize = if back.len() < 19 {
        back.len()
    } else {
        19
    };
    let mut denom: u64 = 1;
    let mut j: usize = 0;
    assert(front@ + back@.subrange(0, 0) =~= front@);
    while j < most
        invariant
            text::all_digits(front@),
            text::all_digits(back@),
            text::number(front@) <= u64::MAX,
            most == readable(back@),
            j <= most <= 19,
            numer == text::number(front@ + back@.subrange(0, j as int)),
            numer <= u64::MAX,
            denom == tens(j as nat),
        decreases most - j,
    {
        let ghost next = front@ + back@.subrange(0, j + 1);
        proof {
            assert(text::is_digit(back@[j as int]));
            assert(next.drop_last() =~= front@ + back@.subrange(0, j as int));
            assert(next.last() == back@[j as int]);
            lemma_tens((j + 1) as nat);
        }
        let more: u128 = numer * 10 + (back[j] as u32 - '0' as u32) as u128;
        if more > u64::MAX as u128 {
            proof {
                lemma_kept(front@, back@, most as nat, j as nat);
            }
            return Ratio { numer: numer as u64, denom };
        }
        numer = more;
        denom = denom * 10;
        j = j + 1;
    }
    proof {
        lemma_kept(front@, back@, most as nat, most as nat);
    }
    Ratio { numer: numer as u64, denom }
}

fn read_return(value: &Value) -> (result: Result<Ratio, String>)
    ensures
        match result {
            Ok(ratio) => return_in(document::toml(*value)) == Ok::<Ratio, Seq<char>>(ratio),
            Err(reason) => return_in(document::toml(*value)) == Err::<Ratio, Seq<char>>(reason@),
        },
{
    let t: String = match document::number_field(value, 2, "min_annualized_return") {
        Err(reason) => {
            return Err(reason);
        },
        Ok(None) => {
            return Ok(Ratio { numer: 15, denom: 100 });
        },
        Ok(Some(t)) => t,
    };
    match split_decimal(t.as_str()) {
        None => {
            let mut reason: String = "engine.min_annualized_return".to_owned();
            reason.append(" must be a non-negative number");
            Err(reason)
        },
        Some((front, back)) => Ok(read_ratio(&front, &back)),
    }
}

fn read_fraction(back: &Vec<char>) -> (n: u64)
    requires
        text::all_digits(back@),
    ensures
        n == thousandths(back@),
        n <= 1000,
{
    let mut n: u64 = 0;
    let mut i: usize = 0;
    while i < 3
        invariant
            i <= 3,
            text::all_digits(back@),
            i <= back@.len() ==> n == text::number(back@.subrange(0, i as int)),
            i > back@.len() ==> n == text::number(back@) * tens((i - back@.len()) as nat),
            n < tens(i as nat),
        decreases 3 - i,
    {
        proof {
            reveal_with_fuel(tens, 5);
        }
        if i < back.len() {
            proof {
                assert(text::is_digit(back@[i as int]));
                assert(back@.subrange(0, i + 1).drop_last() =~= back@.subrange(0, i as int));
            }
            n = n * 10 + (back[i] as u32 - '0' as u32) as u64;
        } else {
            proof {
                assert(back@.subrange(0, back@.len() as int) =~= back@);
                let more = (i - back@.len()) as nat;
                assert(tens(more + 1) == 10 * tens(more));
                assert(text::number(back@) * (10 * tens(more)) == 10 * (text::number(back@) * tens(
                    more,
                ))) by (nonlinear_arith);
            }
            n = n * 10;
        }
        i = i + 1;
    }
    proof {
        reveal_with_fuel(tens, 4);
        assert(back@.len() == 3 ==> back@.subrange(0, 3) =~= back@);
    }
    if back.len() > 3 && back[3] >= '5' {
        n = n + 1;
    }
    n
}

fn read_multiplier(value: &Value, name: &str) -> (result: Result<Option<i64>, String>)
    ensures
        match result {
            Ok(multiplier) => multiplier_in(document::toml(*value), name@) == Ok::<Option<i64>, Seq<char>>(
                multiplier,
            ),
            Err(reason) => multiplier_in(document::toml(*value), name@) == Err::<Option<i64>, Seq<char>>(
                reason@,
            ),
        },
{
    let t: String = match document::number_field(value, 3, "fee_multiplier") {
        Err(reason) => {
            return Err(reason);
        },
        Ok(None) => {
            return Ok(None);
        },
        Ok(Some(t)) => t,
    };
    match split_decimal(t.as_str()) {
        None => {
            let mut reason: String = "venues.".to_owned();
            reason.append(name);
            reason.append(".fee_multiplier");
            reason.append(" must be a non-negative number");
            Err(reason)
        },
        Some((front, back)) => {
            let rest: u64 = read_fraction(&back);
            match text::parse_number(front.as_slice(), i64::MAX as u128) {
                Some(n) => {
                    let total: u128 = n * 1000 + rest as u128;
                    if total <= i64::MAX as u128 {
                        Ok(Some(total as i64))
                    } else {
                        Ok(Some(i64::MAX))
                    }
                },
                None => Ok(Some(i64::MAX)),
            }
        },
    }
}

// ---------------------------------------------------------------------------
// The tables
// ---------------------------------------------------------------------------

/// The largest size that a file can name.
pub open spec fn size_limit() -> i64 {
    if usize::MAX > i64::MAX {
        i64::MAX
    } else {
        usize::MAX as i64
    }
}

fn largest_size() -> (limit: i64)
    ensures
        limit == size_limit(),
        0 <= limit <= usize::MAX,
{
    if usize::MAX as u128 > i64::MAX as u128 {
        i64::MAX
    } else {
        usize::MAX as i64
    }
}

pub open spec fn engine_keys() -> Seq<Seq<char>> {
    seq!["max_book_age_ms"@, "min_net_edge_cents"@, "min_annualized_return"@, "max_position_size"@]
}

/// How far the solver goes.
pub open spec fn engine_in(value: Toml) -> Result<SolverConfig, Seq<char>> {
    if !document::is_record(value) {
        Err(document::mistyped("engine"@, "a table"@))
    } else {
        match document::unknown_in(value, engine_keys()) {
            Some(reason) => Err(reason),
            None => match document::count_in(value, 0, "max_book_age_ms"@, 500, 0, i64::MAX) {
                Err(reason) => Err(reason),
                Ok(max_book_age_ms) => match document::count_in(value, 1, "min_net_edge_cents"@, 1, i64::MIN, i64::MAX) {
                    Err(reason) => Err(reason),
                    Ok(min_net_edge_cents) => match return_in(value) {
                        Err(reason) => Err(reason),
                        Ok(min_annualized_return) => match document::count_in(value, 3, "max_position_size"@, 500, i64::MIN, i64::MAX) {
                            Err(reason) => Err(reason),
                            Ok(max_position_size) => Ok(SolverConfig { max_book_age_ms: max_book_age_ms as u64, min_net_edge_cents, min_annualized_return, max_position_size }),
                        },
                    },
                },
            },
        }
    }
}

fn read_engine(value: &Value) -> (result: Result<SolverConfig, String>)
    ensures
        match result {
            Ok(settings) => engine_in(document::toml(*value)) == Ok::<SolverConfig, Seq<char>>(settings),
            Err(reason) => engine_in(document::toml(*value)) == Err::<SolverConfig, Seq<char>>(reason@),
        },
{
    if !document::record(value) {
        return Err(document::say_mistyped("engine", "a table"));
    }
    let known = ["max_book_age_ms", "min_net_edge_cents", "min_annualized_return", "max_position_size"];
    assert(known@.map_values(|k: &str| k@) =~= engine_keys());
    match document::unknown_field(value, known.as_slice()) {
        Some(reason) => {
            return Err(reason);
        },
        None => {},
    }
    let max_book_age_ms: i64 = match document::count_field(value, 0, "max_book_age_ms", 500, 0, i64::MAX) {
        Ok(max_book_age_ms) => max_book_age_ms,
        Err(reason) => {
            return Err(reason);
        },
    };
    let min_net_edge_cents: i64 = match document::count_field(value, 1, "min_net_edge_cents", 1, i64::MIN, i64::MAX) {
        Ok(min_net_edge_cents) => min_net_edge_cents,
        Err(reason) => {
            return Err(reason);
        },
    };
    let min_annualized_return: Ratio = match read_return(value) {
        Ok(min_annualized_return) => min_annualized_return,
        Err(reason) => {
            return Err(reason);
        },
    };
    let max_position_size: i64 = match document::count_field(value, 3, "max_position_size", 500, i64::MIN, i64::MAX) {
        Ok(max_position_size) => max_position_size,
        Err(reason) => {
            return Err(reason);
        },
    };
    Ok(SolverConfig { max_book_age_ms: max_book_age_ms as u64, min_net_edge_cents, min_annualized_return, max_position_size })
}

pub open spec fn default_engine() -> SolverConfig {
    SolverConfig { max_book_age_ms: 500, min_net_edge_cents: 1, min_annualized_return: Ratio { numer: 15, denom: 100 }, max_position_size: 500 }
}

pub open spec fn risk_keys() -> Seq<Seq<char>> {
    seq!["max_per_event_cents"@, "max_per_theme_cents"@, "max_concurrent_trades"@, "max_daily_loss_cents"@, "starting_capital_cents"@]
}

/// What a trade may put at risk.
pub open spec fn risk_in(value: Toml) -> Result<RiskSettings, Seq<char>> {
    if !document::is_record(value) {
        Err(document::mistyped("risk"@, "a table"@))
    } else {
        match document::unknown_in(value, risk_keys()) {
            Some(reason) => Err(reason),
            None => match document::count_in(value, 0, "max_per_event_cents"@, 50_000, i64::MIN, i64::MAX) {
                Err(reason) => Err(reason),
                Ok(max_per_event_cents) => match document::count_in(value, 1, "max_per_theme_cents"@, 100_000, i64::MIN, i64::MAX) {
                    Err(reason) => Err(reason),
                    Ok(max_per_theme_cents) => match document::count_in(value, 2, "max_concurrent_trades"@, 10, 0, size_limit()) {
                        Err(reason) => Err(reason),
                        Ok(max_concurrent_trades) => match document::count_in(value, 3, "max_daily_loss_cents"@, 100_000, i64::MIN, i64::MAX) {
                            Err(reason) => Err(reason),
                            Ok(max_daily_loss_cents) => match document::count_in(value, 4, "starting_capital_cents"@, 1_000_000, i64::MIN, i64::MAX) {
                                Err(reason) => Err(reason),
                                Ok(starting_capital_cents) => Ok(RiskSettings { max_per_event_cents, max_per_theme_cents, max_concurrent_trades: max_concurrent_trades as usize, max_daily_loss_cents, starting_capital_cents }),
                            },
                        },
                    },
                },
            },
        }
    }
}

fn read_risk(value: &Value) -> (result: Result<RiskSettings, String>)
    ensures
        match result {
            Ok(settings) => risk_in(document::toml(*value)) == Ok::<RiskSettings, Seq<char>>(settings),
            Err(reason) => risk_in(document::toml(*value)) == Err::<RiskSettings, Seq<char>>(reason@),
        },
{
    if !document::record(value) {
        return Err(document::say_mistyped("risk", "a table"));
    }
    let known = ["max_per_event_cents", "max_per_theme_cents", "max_concurrent_trades", "max_daily_loss_cents", "starting_capital_cents"];
    assert(known@.map_values(|k: &str| k@) =~= risk_keys());
    match document::unknown_field(value, known.as_slice()) {
        Some(reason) => {
            return Err(reason);
        },
        None => {},
    }
    let max_per_event_cents: i64 = match document::count_field(value, 0, "max_per_event_cents", 50_000, i64::MIN, i64::MAX) {
        Ok(max_per_event_cents) => max_per_event_cents,
        Err(reason) => {
            return Err(reason);
        },
    };
    let max_per_theme_cents: i64 = match document::count_field(value, 1, "max_per_theme_cents", 100_000, i64::MIN, i64::MAX) {
        Ok(max_per_theme_cents) => max_per_theme_cents,
        Err(reason) => {
            return Err(reason);
        },
    };
    let max_concurrent_trades: i64 = match document::count_field(value, 2, "max_concurrent_trades", 10, 0, largest_size()) {
        Ok(max_concurrent_trades) => max_concurrent_trades,
        Err(reason) => {
            return Err(reason);
        },
    };
    let max_daily_loss_cents: i64 = match document::count_field(value, 3, "max_daily_loss_cents", 100_000, i64::MIN, i64::MAX) {
        Ok(max_daily_loss_cents) => max_daily_loss_cents,
        Err(reason) => {
            return Err(reason);
        },
    };
    let starting_capital_cents: i64 = match document::count_field(value, 4, "starting_capital_cents", 1_000_000, i64::MIN, i64::MAX) {
        Ok(starting_capital_cents) => starting_capital_cents,
        Err(reason) => {
            return Err(reason);
        },
    };
    Ok(RiskSettings { max_per_event_cents, max_per_theme_cents, max_concurrent_trades: max_concurrent_trades as usize, max_daily_loss_cents, starting_capital_cents })
}

pub open spec fn default_risk() -> RiskSettings {
    RiskSettings { max_per_event_cents: 50_000, max_per_theme_cents: 100_000, max_concurrent_trades: 10, max_daily_loss_cents: 100_000, starting_capital_cents: 1_000_000 }
}

pub open spec fn executor_keys() -> Seq<Seq<char>> {
    seq!["paper_mode"@, "atomic_timeout_ms"@, "max_idle_ms"@]
}

/// How orders go out.
pub open spec fn executor_in(value: Toml) -> Result<ExecutorSettings, Seq<char>> {
    if !document::is_record(value) {
        Err(document::mistyped("executor"@, "a table"@))
    } else {
        match document::unknown_in(value, executor_keys()) {
            Some(reason) => Err(reason),
            None => match document::flag_in(value, 0, "paper_mode"@, true) {
                Err(reason) => Err(reason),
                Ok(paper_mode) => match document::count_in(value, 1, "atomic_timeout_ms"@, DEFAULT_TIMEOUT_MS as i64, 0, i64::MAX) {
                    Err(reason) => Err(reason),
                    Ok(atomic_timeout_ms) => match document::count_in(value, 2, "max_idle_ms"@, DEFAULT_MAX_IDLE_MS as i64, 0, i64::MAX) {
                        Err(reason) => Err(reason),
                        Ok(max_idle_ms) => Ok(ExecutorSettings { paper_mode, atomic_timeout_ms: atomic_timeout_ms as u64, max_idle_ms: max_idle_ms as u64 }),
                    },
                },
            },
        }
    }
}

fn read_executor(value: &Value) -> (result: Result<ExecutorSettings, String>)
    ensures
        match result {
            Ok(settings) => executor_in(document::toml(*value)) == Ok::<ExecutorSettings, Seq<char>>(settings),
            Err(reason) => executor_in(document::toml(*value)) == Err::<ExecutorSettings, Seq<char>>(reason@),
        },
{
    if !document::record(value) {
        return Err(document::say_mistyped("executor", "a table"));
    }
    let known = ["paper_mode", "atomic_timeout_ms", "max_idle_ms"];
    assert(known@.map_values(|k: &str| k@) =~= executor_keys());
    match document::unknown_field(value, known.as_slice()) {
        Some(reason) => {
            return Err(reason);
        },
        None => {},
    }
    let paper_mode: bool = match document::flag_field(value, 0, "paper_mode", true) {
        Ok(paper_mode) => paper_mode,
        Err(reason) => {
            return Err(reason);
        },
    };
    let atomic_timeout_ms: i64 = match document::count_field(value, 1, "atomic_timeout_ms", DEFAULT_TIMEOUT_MS as i64, 0, i64::MAX) {
        Ok(atomic_timeout_ms) => atomic_timeout_ms,
        Err(reason) => {
            return Err(reason);
        },
    };
    let max_idle_ms: i64 = match document::count_field(value, 2, "max_idle_ms", DEFAULT_MAX_IDLE_MS as i64, 0, i64::MAX) {
        Ok(max_idle_ms) => max_idle_ms,
        Err(reason) => {
            return Err(reason);
        },
    };
    Ok(ExecutorSettings { paper_mode, atomic_timeout_ms: atomic_timeout_ms as u64, max_idle_ms: max_idle_ms as u64 })
}

pub open spec fn default_executor() -> ExecutorSettings {
    ExecutorSettings { paper_mode: true, atomic_timeout_ms: DEFAULT_TIMEOUT_MS, max_idle_ms: DEFAULT_MAX_IDLE_MS }
}

pub open spec fn venue_keys() -> Seq<Seq<char>> {
    seq!["enabled"@, "metadata_url"@, "cache_dir"@, "fee_multiplier"@]
}

/// One venue. A venue that is written without `enabled` is disabled.
pub open spec fn venue_in(value: Toml, name: Seq<char>) -> Result<VenueView, Seq<char>> {
    if !document::is_record(value) {
        Err(document::mistyped(name, "a table"@))
    } else {
        match document::unknown_in(value, venue_keys()) {
            Some(reason) => Err(reason),
            None => match document::flag_in(value, 0, "enabled"@, false) {
                Err(reason) => Err(reason),
                Ok(enabled) => match document::optional_text_in(value, 1, "metadata_url"@, true) {
                    Err(reason) => Err(reason),
                    Ok(metadata_url) => match document::optional_text_in(value, 2, "cache_dir"@, true) {
                        Err(reason) => Err(reason),
                        Ok(cache_dir) => match multiplier_in(value, name) {
                            Err(reason) => Err(reason),
                            Ok(fee_multiplier) => Ok(VenueView { enabled, metadata_url, cache_dir, fee_multiplier }),
                        },
                    },
                },
            },
        }
    }
}

fn read_venue(value: &Value, name: &str) -> (result: Result<VenueSettings, String>)
    ensures
        match result {
            Ok(settings) => venue_in(document::toml(*value), name@) == Ok::<VenueView, Seq<char>>(settings@),
            Err(reason) => venue_in(document::toml(*value), name@) == Err::<VenueView, Seq<char>>(reason@),
        },
{
    if !document::record(value) {
        return Err(document::say_mistyped(name, "a table"));
    }
    let known = ["enabled", "metadata_url", "cache_dir", "fee_multiplier"];
    assert(known@.map_values(|k: &str| k@) =~= venue_keys());
    match document::unknown_field(value, known.as_slice()) {
        Some(reason) => {
            return Err(reason);
        },
        None => {},
    }
    let enabled: bool = match document::flag_field(value, 0, "enabled", false) {
        Ok(enabled) => enabled,
        Err(reason) => {
            return Err(reason);
        },
    };
    let metadata_url: Option<String> = match document::optional_text_field(value, 1, "metadata_url", true) {
        Ok(metadata_url) => metadata_url,
        Err(reason) => {
            return Err(reason);
        },
    };
    let cache_dir: Option<String> = match document::optional_text_field(value, 2, "cache_dir", true) {
        Ok(cache_dir) => cache_dir,
        Err(reason) => {
            return Err(reason);
        },
    };
    let fee_multiplier: Option<i64> = match read_multiplier(value, name) {
        Ok(fee_multiplier) => fee_multiplier,
        Err(reason) => {
            return Err(reason);
        },
    };
    Ok(VenueSettings { enabled, metadata_url, cache_dir, fee_multiplier })
}

pub open spec fn registry_keys() -> Seq<Seq<char>> {
    seq!["path"@]
}

/// Where the registry lies.
pub open spec fn registry_in(value: Toml) -> Result<Seq<char>, Seq<char>> {
    if !document::is_record(value) {
        Err(document::mistyped("registry"@, "a table"@))
    } else {
        match document::unknown_in(value, registry_keys()) {
            Some(reason) => Err(reason),
            None => match document::word_in(value, 0, "path"@, "config/registry.toml"@) {
                Err(reason) => Err(reason),
                Ok(path) => Ok(path),
            },
        }
    }
}

fn read_registry(value: &Value) -> (result: Result<RegistrySettings, String>)
    ensures
        match result {
            Ok(settings) => registry_in(document::toml(*value)) == Ok::<Seq<char>, Seq<char>>(settings.path@),
            Err(reason) => registry_in(document::toml(*value)) == Err::<Seq<char>, Seq<char>>(reason@),
        },
{
    if !document::record(value) {
        return Err(document::say_mistyped("registry", "a table"));
    }
    let known = ["path"];
    assert(known@.map_values(|k: &str| k@) =~= registry_keys());
    match document::unknown_field(value, known.as_slice()) {
        Some(reason) => {
            return Err(reason);
        },
        None => {},
    }
    let path: String = match document::word_field(value, 0, "path", "config/registry.toml") {
        Ok(path) => path,
        Err(reason) => {
            return Err(reason);
        },
    };
    Ok(RegistrySettings { path })
}

pub open spec fn default_registry() -> Seq<char> {
    "config/registry.toml"@
}

pub open spec fn recorder_keys() -> Seq<Seq<char>> {
    seq!["enabled"@, "output_dir"@, "compress"@]
}

/// What is recorded, and where.
pub open spec fn recorder_in(value: Toml) -> Result<RecorderView, Seq<char>> {
    if !document::is_record(value) {
        Err(document::mistyped("recorder"@, "a table"@))
    } else {
        match document::unknown_in(value, recorder_keys()) {
            Some(reason) => Err(reason),
            None => match document::flag_in(value, 0, "enabled"@, true) {
                Err(reason) => Err(reason),
                Ok(enabled) => match document::word_in(value, 1, "output_dir"@, "data"@) {
                    Err(reason) => Err(reason),
                    Ok(output_dir) => match document::flag_in(value, 2, "compress"@, true) {
                        Err(reason) => Err(reason),
                        Ok(compress) => Ok(RecorderView { enabled, output_dir, compress }),
                    },
                },
            },
        }
    }
}

fn read_recorder(value: &Value) -> (result: Result<RecorderSettings, String>)
    ensures
        match result {
            Ok(settings) => recorder_in(document::toml(*value)) == Ok::<RecorderView, Seq<char>>(settings@),
            Err(reason) => recorder_in(document::toml(*value)) == Err::<RecorderView, Seq<char>>(reason@),
        },
{
    if !document::record(value) {
        return Err(document::say_mistyped("recorder", "a table"));
    }
    let known = ["enabled", "output_dir", "compress"];
    assert(known@.map_values(|k: &str| k@) =~= recorder_keys());
    match document::unknown_field(value, known.as_slice()) {
        Some(reason) => {
            return Err(reason);
        },
        None => {},
    }
    let enabled: bool = match document::flag_field(value, 0, "enabled", true) {
        Ok(enabled) => enabled,
        Err(reason) => {
            return Err(reason);
        },
    };
    let output_dir: String = match document::word_field(value, 1, "output_dir", "data") {
        Ok(output_dir) => output_dir,
        Err(reason) => {
            return Err(reason);
        },
    };
    let compress: bool = match document::flag_field(value, 2, "compress", true) {
        Ok(compress) => compress,
        Err(reason) => {
            return Err(reason);
        },
    };
    Ok(RecorderSettings { enabled, output_dir, compress })
}

pub open spec fn default_recorder() -> RecorderView {
    RecorderView { enabled: true, output_dir: "data"@, compress: true }
}

pub open spec fn discovery_keys() -> Seq<Seq<char>> {
    seq!["enabled"@, "cache_dir"@, "cache_max_age_secs"@, "auto_discover_on_startup"@, "status"@, "series"@, "max_pages"@, "allow_inferred_live_orders"@]
}

/// How much of the venue is discovered.
pub open spec fn discovery_in(value: Toml) -> Result<DiscoveryView, Seq<char>> {
    if !document::is_record(value) {
        Err(document::mistyped("discovery"@, "a table"@))
    } else {
        match document::unknown_in(value, discovery_keys()) {
            Some(reason) => Err(reason),
            None => match document::flag_in(value, 0, "enabled"@, true) {
                Err(reason) => Err(reason),
                Ok(enabled) => match document::word_in(value, 1, "cache_dir"@, ".cache/kalshi"@) {
                    Err(reason) => Err(reason),
                    Ok(cache_dir) => match document::count_in(value, 2, "cache_max_age_secs"@, 3_600, 0, i64::MAX) {
                        Err(reason) => Err(reason),
                        Ok(cache_max_age_secs) => match document::flag_in(value, 3, "auto_discover_on_startup"@, false) {
                            Err(reason) => Err(reason),
                            Ok(auto_discover_on_startup) => match document::word_in(value, 4, "status"@, "open"@) {
                                Err(reason) => Err(reason),
                                Ok(status) => match document::word_in(value, 5, "series"@, ""@) {
                                    Err(reason) => Err(reason),
                                    Ok(series) => match document::count_in(value, 6, "max_pages"@, 100, 0, size_limit()) {
                                        Err(reason) => Err(reason),
                                        Ok(max_pages) => match document::flag_in(value, 7, "allow_inferred_live_orders"@, false) {
                                            Err(reason) => Err(reason),
                                            Ok(allow_inferred_live_orders) => Ok(DiscoveryView { enabled, cache_dir, cache_max_age_secs: cache_max_age_secs as u64, auto_discover_on_startup, status, series, max_pages: max_pages as usize, allow_inferred_live_orders }),
                                        },
                                    },
                                },
                            },
                        },
                    },
                },
            },
        }
    }
}

fn read_discovery(value: &Value) -> (result: Result<DiscoverySettings, String>)
    ensures
        match result {
            Ok(settings) => discovery_in(document::toml(*value)) == Ok::<DiscoveryView, Seq<char>>(settings@),
            Err(reason) => discovery_in(document::toml(*value)) == Err::<DiscoveryView, Seq<char>>(reason@),
        },
{
    if !document::record(value) {
        return Err(document::say_mistyped("discovery", "a table"));
    }
    let known = ["enabled", "cache_dir", "cache_max_age_secs", "auto_discover_on_startup", "status", "series", "max_pages", "allow_inferred_live_orders"];
    assert(known@.map_values(|k: &str| k@) =~= discovery_keys());
    match document::unknown_field(value, known.as_slice()) {
        Some(reason) => {
            return Err(reason);
        },
        None => {},
    }
    let enabled: bool = match document::flag_field(value, 0, "enabled", true) {
        Ok(enabled) => enabled,
        Err(reason) => {
            return Err(reason);
        },
    };
    let cache_dir: String = match document::word_field(value, 1, "cache_dir", ".cache/kalshi") {
        Ok(cache_dir) => cache_dir,
        Err(reason) => {
            return Err(reason);
        },
    };
    let cache_max_age_secs: i64 = match document::count_field(value, 2, "cache_max_age_secs", 3_600, 0, i64::MAX) {
        Ok(cache_max_age_secs) => cache_max_age_secs,
        Err(reason) => {
            return Err(reason);
        },
    };
    let auto_discover_on_startup: bool = match document::flag_field(value, 3, "auto_discover_on_startup", false) {
        Ok(auto_discover_on_startup) => auto_discover_on_startup,
        Err(reason) => {
            return Err(reason);
        },
    };
    let status: String = match document::word_field(value, 4, "status", "open") {
        Ok(status) => status,
        Err(reason) => {
            return Err(reason);
        },
    };
    let series: String = match document::word_field(value, 5, "series", "") {
        Ok(series) => series,
        Err(reason) => {
            return Err(reason);
        },
    };
    let max_pages: i64 = match document::count_field(value, 6, "max_pages", 100, 0, largest_size()) {
        Ok(max_pages) => max_pages,
        Err(reason) => {
            return Err(reason);
        },
    };
    let allow_inferred_live_orders: bool = match document::flag_field(value, 7, "allow_inferred_live_orders", false) {
        Ok(allow_inferred_live_orders) => allow_inferred_live_orders,
        Err(reason) => {
            return Err(reason);
        },
    };
    Ok(DiscoverySettings { enabled, cache_dir, cache_max_age_secs: cache_max_age_secs as u64, auto_discover_on_startup, status, series, max_pages: max_pages as usize, allow_inferred_live_orders })
}

pub open spec fn default_discovery() -> DiscoveryView {
    DiscoveryView { enabled: true, cache_dir: ".cache/kalshi"@, cache_max_age_secs: 3_600, auto_discover_on_startup: false, status: "open"@, series: ""@, max_pages: 100, allow_inferred_live_orders: false }
}

pub open spec fn venues_keys() -> Seq<Seq<char>> {
    seq!["kalshi"@, "polymarket"@]
}

/// A venue that is not written at all.
pub open spec fn silent_venue(enabled: bool) -> VenueView {
    VenueView { enabled, metadata_url: None, cache_dir: None, fee_multiplier: None }
}

/// One of the venues, with what it is where nothing is written of it.
pub open spec fn named_venue_in(value: Toml, place: int, name: Seq<char>, enabled: bool) -> Result<
    VenueView,
    Seq<char>,
> {
    match document::field_of(value, place, name) {
        None => Ok(silent_venue(enabled)),
        Some(inner) => venue_in(inner, name),
    }
}

/// Both venues.
pub open spec fn venues_in(value: Toml) -> Result<(VenueView, VenueView), Seq<char>> {
    if !document::is_record(value) {
        Err(document::mistyped("venues"@, "a table"@))
    } else {
        match document::unknown_in(value, venues_keys()) {
            Some(reason) => Err(reason),
            None => match named_venue_in(value, 0, "kalshi"@, true) {
                Err(reason) => Err(reason),
                Ok(kalshi) => match named_venue_in(value, 1, "polymarket"@, false) {
                    Err(reason) => Err(reason),
                    Ok(polymarket) => Ok((kalshi, polymarket)),
                },
            },
        }
    }
}

fn read_named_venue(value: &Value, place: usize, name: &str, enabled: bool) -> (result: Result<
    VenueSettings,
    String,
>)
    ensures
        match result {
            Ok(settings) => named_venue_in(document::toml(*value), place as int, name@, enabled) == Ok::<
                VenueView,
                Seq<char>,
            >(settings@),
            Err(reason) => named_venue_in(document::toml(*value), place as int, name@, enabled) == Err::<
                VenueView,
                Seq<char>,
            >(reason@),
        },
{
    match document::field(value, place, name) {
        None => {
            let mut settings: VenueSettings = VenueSettings::default();
            settings.enabled = enabled;
            Ok(settings)
        },
        Some(inner) => read_venue(inner, name),
    }
}

fn read_venues(value: &Value) -> (result: Result<Venues, String>)
    ensures
        match result {
            Ok(venues) => venues_in(document::toml(*value)) == Ok::<(VenueView, VenueView), Seq<char>>(
                (venues.kalshi@, venues.polymarket@),
            ),
            Err(reason) => venues_in(document::toml(*value)) == Err::<(VenueView, VenueView), Seq<char>>(
                reason@,
            ),
        },
{
    if !document::record(value) {
        return Err(document::say_mistyped("venues", "a table"));
    }
    let known = ["kalshi", "polymarket"];
    assert(known@.map_values(|k: &str| k@) =~= venues_keys());
    match document::unknown_field(value, known.as_slice()) {
        Some(reason) => {
            return Err(reason);
        },
        None => {},
    }
    let kalshi: VenueSettings = match read_named_venue(value, 0, "kalshi", true) {
        Ok(kalshi) => kalshi,
        Err(reason) => {
            return Err(reason);
        },
    };
    let polymarket: VenueSettings = match read_named_venue(value, 1, "polymarket", false) {
        Ok(polymarket) => polymarket,
        Err(reason) => {
            return Err(reason);
        },
    };
    Ok(Venues { kalshi, polymarket })
}

/// The `engine` table, which may be left out.
pub open spec fn engine_of(config: Toml) -> Result<SolverConfig, Seq<char>> {
    match document::field_of(config, 0, "engine"@) {
        None => Ok(default_engine()),
        Some(inner) => engine_in(inner),
    }
}

fn take_engine(config: &Value) -> (result: Result<SolverConfig, String>)
    ensures
        match result {
            Ok(settings) => engine_of(document::toml(*config)) == Ok::<SolverConfig, Seq<char>>(settings),
            Err(reason) => engine_of(document::toml(*config)) == Err::<SolverConfig, Seq<char>>(reason@),
        },
{
    match document::field(config, 0, "engine") {
        None => Ok(SolverConfig::default()),
        Some(inner) => read_engine(inner),
    }
}

/// The `registry` table, which may be left out.
pub open spec fn registry_of(config: Toml) -> Result<Seq<char>, Seq<char>> {
    match document::field_of(config, 2, "registry"@) {
        None => Ok(default_registry()),
        Some(inner) => registry_in(inner),
    }
}

fn take_registry(config: &Value) -> (result: Result<RegistrySettings, String>)
    ensures
        match result {
            Ok(settings) => registry_of(document::toml(*config)) == Ok::<Seq<char>, Seq<char>>(settings.path@),
            Err(reason) => registry_of(document::toml(*config)) == Err::<Seq<char>, Seq<char>>(reason@),
        },
{
    match document::field(config, 2, "registry") {
        None => Ok(RegistrySettings::default()),
        Some(inner) => read_registry(inner),
    }
}

/// The `recorder` table, which may be left out.
pub open spec fn recorder_of(config: Toml) -> Result<RecorderView, Seq<char>> {
    match document::field_of(config, 3, "recorder"@) {
        None => Ok(default_recorder()),
        Some(inner) => recorder_in(inner),
    }
}

fn take_recorder(config: &Value) -> (result: Result<RecorderSettings, String>)
    ensures
        match result {
            Ok(settings) => recorder_of(document::toml(*config)) == Ok::<RecorderView, Seq<char>>(settings@),
            Err(reason) => recorder_of(document::toml(*config)) == Err::<RecorderView, Seq<char>>(reason@),
        },
{
    match document::field(config, 3, "recorder") {
        None => Ok(RecorderSettings::default()),
        Some(inner) => read_recorder(inner),
    }
}

/// The `risk` table, which may be left out.
pub open spec fn risk_of(config: Toml) -> Result<RiskSettings, Seq<char>> {
    match document::field_of(config, 4, "risk"@) {
        None => Ok(default_risk()),
        Some(inner) => risk_in(inner),
    }
}

fn take_risk(config: &Value) -> (result: Result<RiskSettings, String>)
    ensures
        match result {
            Ok(settings) => risk_of(document::toml(*config)) == Ok::<RiskSettings, Seq<char>>(settings),
            Err(reason) => risk_of(document::toml(*config)) == Err::<RiskSettings, Seq<char>>(reason@),
        },
{
    match document::field(config, 4, "risk") {
        None => Ok(RiskSettings::default()),
        Some(inner) => read_risk(inner),
    }
}

/// The `executor` table, which may be left out.
pub open spec fn executor_of(config: Toml) -> Result<ExecutorSettings, Seq<char>> {
    match document::field_of(config, 5, "executor"@) {
        None => Ok(default_executor()),
        Some(inner) => executor_in(inner),
    }
}

fn take_executor(config: &Value) -> (result: Result<ExecutorSettings, String>)
    ensures
        match result {
            Ok(settings) => executor_of(document::toml(*config)) == Ok::<ExecutorSettings, Seq<char>>(settings),
            Err(reason) => executor_of(document::toml(*config)) == Err::<ExecutorSettings, Seq<char>>(reason@),
        },
{
    match document::field(config, 5, "executor") {
        None => Ok(ExecutorSettings::default()),
        Some(inner) => read_executor(inner),
    }
}

/// The `discovery` table, which may be left out.
pub open spec fn discovery_of(config: Toml) -> Result<DiscoveryView, Seq<char>> {
    match document::field_of(config, 6, "discovery"@) {
        None => Ok(default_discovery()),
        Some(inner) => discovery_in(inner),
    }
}

fn take_discovery(config: &Value) -> (result: Result<DiscoverySettings, String>)
    ensures
        match result {
            Ok(settings) => discovery_of(document::toml(*config)) == Ok::<DiscoveryView, Seq<char>>(settings@),
            Err(reason) => discovery_of(document::toml(*config)) == Err::<DiscoveryView, Seq<char>>(reason@),
        },
{
    match document::field(config, 6, "discovery") {
        None => Ok(DiscoverySettings::default()),
        Some(inner) => read_discovery(inner),
    }
}

/// The `venues` table, which may be left out.
pub open spec fn venues_of(config: Toml) -> Result<(VenueView, VenueView), Seq<char>> {
    match document::field_of(config, 1, "venues"@) {
        None => Ok((silent_venue(true), silent_venue(false))),
        Some(inner) => venues_in(inner),
    }
}

fn take_venues(config: &Value) -> (result: Result<Venues, String>)
    ensures
        match result {
            Ok(settings) => venues_of(document::toml(*config)) == Ok::<(VenueView, VenueView), Seq<char>>((settings.kalshi@, settings.polymarket@)),
            Err(reason) => venues_of(document::toml(*config)) == Err::<(VenueView, VenueView), Seq<char>>(reason@),
        },
{
    match document::field(config, 1, "venues") {
        None => Ok(Venues::default()),
        Some(inner) => read_venues(inner),
    }
}

pub open spec fn config_keys() -> Seq<Seq<char>> {
    seq!["engine"@, "venues"@, "registry"@, "recorder"@, "risk"@, "executor"@, "discovery"@]
}

/// The configuration that a document writes, whether or not a run could mean it.
pub open spec fn config_in(value: Toml) -> Result<ConfigView, Seq<char>> {
    if !document::is_record(value) {
        Err(document::mistyped("config"@, "a table"@))
    } else {
        match document::unknown_in(value, config_keys()) {
            Some(reason) => Err(reason),
            None => match engine_of(value) {
                Err(reason) => Err(reason),
                Ok(engine) => match venues_of(value) {
                    Err(reason) => Err(reason),
                    Ok((kalshi, polymarket)) => match registry_of(value) {
                        Err(reason) => Err(reason),
                        Ok(registry_path) => match recorder_of(value) {
                            Err(reason) => Err(reason),
                            Ok(recorder) => match risk_of(value) {
                                Err(reason) => Err(reason),
                                Ok(risk) => match executor_of(value) {
                                    Err(reason) => Err(reason),
                                    Ok(executor) => match discovery_of(value) {
                                        Err(reason) => Err(reason),
                                        Ok(discovery) => Ok(ConfigView { engine, kalshi, polymarket, registry_path, recorder, risk, executor, discovery }),
                                    },
                                },
                            },
                        },
                    },
                },
            },
        }
    }
}

/// The configuration that a file writes: every mistake in it is an error.
pub open spec fn parsed_config(text: Seq<char>) -> Result<ConfigView, Seq<char>> {
    match document::parsed_toml(text) {
        Err(reason) => Err(reason),
        Ok(value) => match config_in(value) {
            Err(reason) => Err(reason),
            Ok(config) => match crate::config::fault(config) {
                Some(reason) => Err(reason),
                None => Ok(config),
            },
        },
    }
}

fn read_config(value: &Value) -> (result: Result<Config, String>)
    ensures
        match result {
            Ok(config) => config_in(document::toml(*value)) == Ok::<ConfigView, Seq<char>>(config@),
            Err(reason) => config_in(document::toml(*value)) == Err::<ConfigView, Seq<char>>(reason@),
        },
{
    if !document::record(value) {
        return Err(document::say_mistyped("config", "a table"));
    }
    let known = ["engine", "venues", "registry", "recorder", "risk", "executor", "discovery"];
    assert(known@.map_values(|k: &str| k@) =~= config_keys());
    match document::unknown_field(value, known.as_slice()) {
        Some(reason) => {
            return Err(reason);
        },
        None => {},
    }
    let engine: SolverConfig = match take_engine(value) {
        Ok(engine) => engine,
        Err(reason) => {
            return Err(reason);
        },
    };
    let venues: Venues = match take_venues(value) {
        Ok(venues) => venues,
        Err(reason) => {
            return Err(reason);
        },
    };
    let registry: RegistrySettings = match take_registry(value) {
        Ok(registry) => registry,
        Err(reason) => {
            return Err(reason);
        },
    };
    let recorder: RecorderSettings = match take_recorder(value) {
        Ok(recorder) => recorder,
        Err(reason) => {
            return Err(reason);
        },
    };
    let risk: RiskSettings = match take_risk(value) {
        Ok(risk) => risk,
        Err(reason) => {
            return Err(reason);
        },
    };
    let executor: ExecutorSettings = match take_executor(value) {
        Ok(executor) => executor,
        Err(reason) => {
            return Err(reason);
        },
    };
    let discovery: DiscoverySettings = match take_discovery(value) {
        Ok(discovery) => discovery,
        Err(reason) => {
            return Err(reason);
        },
    };
    Ok(Config { engine, venues, registry, recorder, risk, executor, discovery })
}

impl Config {
    /// Reads a configuration file. What it does not say has its default; what it
    /// says wrongly, or says of a key that there is not, is an error.
    pub fn parse(text: &str) -> (result: Result<Config, String>)
        ensures
            match result {
                Ok(config) => parsed_config(text@) == Ok::<ConfigView, Seq<char>>(config@),
                Err(reason) => parsed_config(text@) == Err::<ConfigView, Seq<char>>(reason@),
            },
    {
        let value: Value = match document::read(text) {
            Ok(value) => value,
            Err(reason) => {
                return Err(reason);
            },
        };
        let config: Config = match read_config(&value) {
            Ok(config) => config,
            Err(reason) => {
                return Err(reason);
            },
        };
        match config.validate() {
            Ok(_) => Ok(config),
            Err(reason) => Err(reason.to_owned()),
        }
    }
}

/// A key that there is not is never passed over, in whichever table it stands.
pub proof fn an_unknown_key_is_refused(
    entries: Map<Seq<char>, Toml>,
    key: Seq<char>,
    venue: Seq<char>,
)
    requires
        entries.dom().finite(),
        entries.contains_key(key),
    ensures
        !config_keys().contains(key) ==> config_in(Toml::Table(entries)) is Err,
        !engine_keys().contains(key) ==> engine_in(Toml::Table(entries)) is Err,
        !venues_keys().contains(key) ==> venues_in(Toml::Table(entries)) is Err,
        !registry_keys().contains(key) ==> registry_in(Toml::Table(entries)) is Err,
        !recorder_keys().contains(key) ==> recorder_in(Toml::Table(entries)) is Err,
        !risk_keys().contains(key) ==> risk_in(Toml::Table(entries)) is Err,
        !executor_keys().contains(key) ==> executor_in(Toml::Table(entries)) is Err,
        !discovery_keys().contains(key) ==> discovery_in(Toml::Table(entries)) is Err,
        !venue_keys().contains(key) ==> venue_in(Toml::Table(entries), venue) is Err,
{
    if !config_keys().contains(key) {
        document::lemma_unknown(entries, config_keys(), key);
    }
    if !engine_keys().contains(key) {
        document::lemma_unknown(entries, engine_keys(), key);
    }
    if !venues_keys().contains(key) {
        document::lemma_unknown(entries, venues_keys(), key);
    }
    if !registry_keys().contains(key) {
        document::lemma_unknown(entries, registry_keys(), key);
    }
    if !recorder_keys().contains(key) {
        document::lemma_unknown(entries, recorder_keys(), key);
    }
    if !risk_keys().contains(key) {
        document::lemma_unknown(entries, risk_keys(), key);
    }
    if !executor_keys().contains(key) {
        document::lemma_unknown(entries, executor_keys(), key);
    }
    if !discovery_keys().contains(key) {
        document::lemma_unknown(entries, discovery_keys(), key);
    }
    if !venue_keys().contains(key) {
        document::lemma_unknown(entries, venue_keys(), key);
    }
}

/// A mistake in any table is a mistake in the file.
pub proof fn a_refused_table_refuses_the_file(value: Toml)
    ensures
        engine_of(value) is Err ==> config_in(value) is Err,
        venues_of(value) is Err ==> config_in(value) is Err,
        registry_of(value) is Err ==> config_in(value) is Err,
        recorder_of(value) is Err ==> config_in(value) is Err,
        risk_of(value) is Err ==> config_in(value) is Err,
        executor_of(value) is Err ==> config_in(value) is Err,
        discovery_of(value) is Err ==> config_in(value) is Err,
{
}

/// A configuration that was read is one that a run can mean.
pub proof fn a_parsed_config_is_sound(text: Seq<char>)
    ensures
        parsed_config(text) matches Ok(config) ==> crate::config::fault(config) is None,
{
}

} // verus!
