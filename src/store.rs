//! The store's records and configuration: store derivations, store
//! objects, realisations, the options of an addition, and the closure of a
//! realisation over the table of realisation references.
use crate::drv::System;
use crate::hash::{has_prefix, HashAlgo};
use crate::store_path::{drv_ext, ends_with, has_suffix, is_name_char, is_valid_char, StorePath};
use vstd::prelude::*;

verus! {

/// Default directory of the store.
pub const STORE_DIR: &'static str = "/var/lib/oxide/store";

/// Default directory of the logs.
pub const LOG_DIR: &'static str = "/var/log/oxide";

/// Default directory of the state (the metadata database).
pub const STATE_DIR: &'static str = "/var/lib/oxide/var";

/// Prefix of the builder of a derivation that the engine runs itself.
pub const BUILTIN_PREFIX: &'static str = "builtin:";

/// What can go wrong in the store and the engine.
#[derive(Debug)]
pub enum StoreError {
    InvalidName,
    InvalidHash,
    UnknownFileType,
    UnimplementedAlgo,
    HashMismatch { expected: crate::hash::Hash, got: crate::hash::Hash },
    MissingOutput(String),
    InvalidOutput(String),
    FixedOutput,
    UnknownBuiltin(String),
    FetchFailed(String, u16),
    Unimplemented(String),
    Conflict,
}

/// The directories the store works in.
pub struct Config {
    pub store_dir: String,
    pub log_dir: String,
    pub state_dir: String,
}

impl Config {
    /// The configuration from the values of `OXIDE_STORE_DIR`,
    /// `OXIDE_LOG_DIR` and `OXIDE_STATE_DIR`, each defaulting when unset.
    pub fn new(store_dir: Option<String>, log_dir: Option<String>, state_dir: Option<String>) -> (r:
        Config)
        ensures
            store_dir is Some ==> r.store_dir == store_dir->0,
            store_dir is None ==> r.store_dir@ == STORE_DIR@,
            log_dir is Some ==> r.log_dir == log_dir->0,
            log_dir is None ==> r.log_dir@ == LOG_DIR@,
            state_dir is Some ==> r.state_dir == state_dir->0,
            state_dir is None ==> r.state_dir@ == STATE_DIR@,
    {
        Config {
            store_dir: match store_dir {
                Some(s) => s,
                None => STORE_DIR.to_owned(),
            },
            log_dir: match log_dir {
                Some(s) => s,
                None => LOG_DIR.to_owned(),
            },
            state_dir: match state_dir {
                Some(s) => s,
                None => STATE_DIR.to_owned(),
            },
        }
    }

    /// The absolute path of `p` in the store directory.
    pub fn store_path(&self, p: &StorePath) -> (r: String)
        ensures
            r@ == self.store_dir@ + seq!['/'] + p.path@,
    {
        proof {
            reveal_strlit("/");
        }
        self.store_dir.clone().concat("/").concat(p.as_str())
    }

    /// The store path named by an absolute path in the store directory.
    pub fn path_to_store(&self, full: &str) -> (r: Option<StorePath>)
        ensures
            r is Some <==> (self.store_dir@.len() + 1 <= full@.len() && full@.subrange(
                0,
                self.store_dir@.len() + 1 as int,
            ) == self.store_dir@ + seq!['/']),
            r is Some ==> r->0.path@ == full@.subrange(
                self.store_dir@.len() + 1 as int,
                full@.len() as int,
            ),
    {
        proof {
            reveal_strlit("/");
        }
        let prefix = self.store_dir.clone().concat("/");
        assert("/"@ =~= seq!['/']);
        assert(prefix@ == self.store_dir@ + seq!['/']);
        if has_prefix(full, prefix.as_str()) {
            let n = full.unicode_len();
            let m = prefix.as_str().unicode_len();
            Some(StorePath::from_string(full.substring_char(m, n).to_owned()))
        } else {
            None
        }
    }
}

/// Where the metadata database lives.
pub struct LocalStoreConfig {
    pub db_dir: String,
    pub db_path: String,
    pub migrations_dir: String,
}

impl LocalStoreConfig {
    /// `<state>/db`, `<state>/db/sqlite.db` and `<state>/db/migrations`.
    pub fn new(state_dir: &str) -> (r: LocalStoreConfig)
        ensures
            r.db_dir@ == state_dir@ + seq!['/', 'd', 'b'],
            r.db_path@ == r.db_dir@ + seq!['/', 's', 'q', 'l', 'i', 't', 'e', '.', 'd', 'b'],
            r.migrations_dir@ == r.db_dir@ + seq![
                '/',
                'm',
                'i',
                'g',
                'r',
                'a',
                't',
                'i',
                'o',
                'n',
                's',
            ],
    {
        proof {
            reveal_strlit("/db");
            reveal_strlit("/sqlite.db");
            reveal_strlit("/migrations");
        }
        let db_dir = state_dir.to_owned().concat("/db");
        let db_path = db_dir.clone().concat("/sqlite.db");
        let migrations_dir = db_dir.clone().concat("/migrations");
        LocalStoreConfig { db_dir, db_path, migrations_dir }
    }
}

/// A derivation as written in the store: fully resolved, its maps as
/// association lists in key order.
pub struct StoreDrv {
    pub eq_classes: Vec<(String, StorePath)>,
    pub fixed_hash: Option<crate::hash::Hash>,
    pub input_drvs: Vec<(StorePath, Vec<String>)>,
    pub input_srcs: Vec<StorePath>,
    pub system: System,
    pub builder: String,
    pub args: Vec<String>,
    pub envs: Vec<(String, String)>,
}

/// No two entries share a key.
pub open spec fn unique_keys<V>(s: Seq<(String, V)>) -> bool {
    forall|i: int, j: int| 0 <= i < j < s.len() ==> (#[trigger] s[i]).0@ != (#[trigger] s[j]).0@
}

/// No path is listed twice.
pub open spec fn unique_paths(s: Seq<StorePath>) -> bool {
    forall|i: int, j: int| 0 <= i < j < s.len() ==> (#[trigger] s[i]).path@ != (#[trigger] s[j]).path@
}

impl StoreDrv {
    /// Its maps have unique keys and its sets unique members.
    pub open spec fn wf(&self) -> bool {
        &&& unique_keys(self.eq_classes@)
        &&& forall|i: int, j: int|
            0 <= i < j < self.input_drvs@.len() ==> (#[trigger] self.input_drvs@[i]).0.path@
                != (#[trigger] self.input_drvs@[j]).0.path@
        &&& unique_paths(self.input_srcs@)
        &&& unique_keys(self.envs@)
    }
}

pub open spec fn builtin_prefix() -> Seq<char> {
    seq!['b', 'u', 'i', 'l', 't', 'i', 'n', ':']
}

impl StoreDrv {
    /// The name of the builtin the builder names, if it is one.
    pub fn builtin(&self) -> (r: Option<String>)
        ensures
            r is Some <==> (builtin_prefix().len() <= self.builder@.len()
                && self.builder@.subrange(0, 8) == builtin_prefix()),
            r is Some ==> r->0@ == self.builder@.subrange(8, self.builder@.len() as int),
    {
        proof {
            reveal_strlit("builtin:");
        }
        assert("builtin:"@ =~= builtin_prefix());
        if has_prefix(self.builder.as_str(), "builtin:") {
            let n = self.builder.as_str().unicode_len();
            Some(self.builder.as_str().substring_char(8, n).to_owned())
        } else {
            None
        }
    }
}

/// A store object: a path and the hash of its content.
pub struct StoreObj {
    pub path: StorePath,
    pub hash: crate::hash::Hash,
}

/// A path that realises output `out` of an equivalence class.
#[derive(Clone, Debug)]
pub struct Realisation {
    pub eq_class: StorePath,
    pub out: String,
    pub path: StorePath,
}

pub type RealisationView = (Seq<char>, Seq<char>, Seq<char>);

impl Realisation {
    pub open spec fn view(&self) -> RealisationView {
        (self.eq_class.path@, self.out@, self.path.path@)
    }

    /// A copy with the same fields.
    pub fn copy(&self) -> (r: Realisation)
        ensures
            r.view() == self.view(),
    {
        Realisation { eq_class: self.eq_class.copy(), out: self.out.clone(), path: self.path.copy() }
    }

    /// Whether the two realisations have the same fields.
    pub fn same(&self, other: &Realisation) -> (r: bool)
        ensures
            r == (self.view() == other.view()),
    {
        self.eq_class.path == other.eq_class.path && self.out == other.out && self.path.path
            == other.path.path
    }
}

/// The realisation that an addition to the store records, with the
/// realisations its output refers to.
pub struct EqRefs {
    pub eq_class: StorePath,
    pub out: String,
    pub refs: Vec<Realisation>,
}

/// The options of an addition to the store.
pub struct Opt {
    pub algo: HashAlgo,
    pub refs: Vec<StorePath>,
    pub eq_refs: Option<EqRefs>,
    pub name: String,
    pub rewrites: Vec<(StorePath, StorePath)>,
    pub self_hash: Option<StorePath>,
    /// The object is a derivation file written by the instantiator.
    pub drv_file: bool,
}

/// A name under which an object may be added: at least three characters,
/// letters, digits, `-`, `_` and `.` only, and ending with `.drv` only for
/// a derivation file.
pub open spec fn valid_store_name(name: Seq<char>, drv_file: bool) -> bool {
    &&& name.len() >= 3
    &&& forall|k: int| 0 <= k < name.len() ==> is_name_char(#[trigger] name[k])
    &&& (ends_with(name, drv_ext()) ==> drv_file)
}

/// Checks the name under which an object is to be added; `drv_file` tells
/// that the instantiator is writing a derivation file.
pub fn check_name(name: &str, drv_file: bool) -> (r: Result<(), StoreError>)
    ensures
        r is Ok <==> valid_store_name(name@, drv_file),
        r is Err ==> r->Err_0 is InvalidName,
{
    proof {
        reveal_strlit(".drv");
    }
    assert(".drv"@ =~= drv_ext());
    if has_suffix(name, ".drv") && !drv_file {
        return Err(StoreError::InvalidName);
    }
    let n = name.unicode_len();
    if n < 3 {
        return Err(StoreError::InvalidName);
    }
    let mut k: usize = 0;
    while k < n
        invariant
            n == name@.len(),
            k <= n,
            forall|q: int| 0 <= q < k ==> is_name_char(#[trigger] name@[q]),
        decreases n - k,
    {
        if !is_valid_char(name.get_char(k)) {
            return Err(StoreError::InvalidName);
        }
        k = k + 1;
    }
    Ok(())
}

/// The views of a list of realisations.
pub open spec fn views(rs: Seq<Realisation>) -> Seq<RealisationView> {
    rs.map_values(|r: Realisation| r.view())
}

/// `y` is a direct reference of `x` in the table: some row of `x` lists it.
pub open spec fn refers(
    table: Seq<(Realisation, Vec<Realisation>)>,
    x: RealisationView,
    y: RealisationView,
) -> bool {
    exists|i: int, j: int|
        0 <= i < table.len() && table[i].0.view() == x && 0 <= j < table[i].1@.len()
            && table[i].1@[j].view() == y
}

/// Every realisation listed as a reference anywhere in the table.
pub open spec fn all_refs(table: Seq<(Realisation, Vec<Realisation>)>) -> Seq<RealisationView>
    decreases table.len(),
{
    if table.len() == 0 {
        Seq::empty()
    } else {
        all_refs(table.drop_last()) + views(table.last().1@)
    }
}

proof fn lemma_all_refs_contains(table: Seq<(Realisation, Vec<Realisation>)>, i: int, j: int)
    requires
        0 <= i < table.len(),
        0 <= j < table[i].1@.len(),
    ensures
        all_refs(table).contains(table[i].1@[j].view()),
    decreases table.len(),
{
    let a = all_refs(table.drop_last());
    let v = views(table.last().1@);
    if i == table.len() - 1 {
        assert((a + v)[a.len() + j] == table[i].1@[j].view());
    } else {
        lemma_all_refs_contains(table.drop_last(), i, j);
        let k = choose|k: int| 0 <= k < a.len() && a[k] == table[i].1@[j].view();
        assert((a + v)[k] == a[k]);
    }
}

/// `y` is reachable from `r` through the table in at most `n` steps.
pub open spec fn reachable(
    table: Seq<(Realisation, Vec<Realisation>)>,
    r: RealisationView,
    y: RealisationView,
    n: nat,
) -> bool
    decreases n,
{
    if n == 0 {
        y == r
    } else {
        reachable(table, r, y, (n - 1) as nat) || exists|x: RealisationView|
            reachable(table, r, x, (n - 1) as nat) && #[trigger] refers(table, x, y)
    }
}

/// `y` is reachable from `r` through the table.
pub open spec fn reached(
    table: Seq<(Realisation, Vec<Realisation>)>,
    r: RealisationView,
    y: RealisationView,
) -> bool {
    exists|n: nat| reachable(table, r, y, n)
}

/// Whether `x` is in `rs`.
fn contains_realisation(rs: &Vec<Realisation>, x: &Realisation) -> (r: bool)
    ensures
        r == views(rs@).contains(x.view()),
{
    let mut k: usize = 0;
    while k < rs.len()
        invariant
            k <= rs@.len(),
            forall|q: int| 0 <= q < k ==> rs@[q].view() != x.view(),
        decreases rs@.len() - k,
    {
        if rs[k].same(x) {
            assert(views(rs@)[k as int] == x.view());
            return true;
        }
        k = k + 1;
    }
    proof {
        if views(rs@).contains(x.view()) {
            let q = choose|q: int| 0 <= q < views(rs@).len() && views(rs@)[q] == x.view();
            assert(rs@[q].view() == x.view());
        }
    }
    false
}

/// The realisations reachable from `r` through the table of realisation
/// references, `r` included; every reference of a member is a member.
pub fn closure(table: &Vec<(Realisation, Vec<Realisation>)>, r: &Realisation) -> (res: Vec<
    Realisation,
>)
    ensures
        views(res@).contains(r.view()),
        forall|x: RealisationView, y: RealisationView|
            #[trigger] views(res@).contains(x) && #[trigger] refers(table@, x, y) ==> views(
                res@,
            ).contains(y),
        forall|y: RealisationView|
            #[trigger] views(res@).contains(y) ==> y == r.view() || all_refs(table@).contains(y),
        forall|y: RealisationView|
            #[trigger] views(res@).contains(y) ==> reached(table@, r.view(), y),
{
    let ghost universe = seq![r.view()] + all_refs(table@);
    let mut res: Vec<Realisation> = Vec::new();
    res.push(r.copy());
    assert(views(res@) =~= seq![r.view()]);
    assert(universe[0] == r.view());
    assert(reachable(table@, r.view(), r.view(), 0));
    assert forall|y: RealisationView| #[trigger] views(res@).contains(y) implies reached(table@, r.view(), y) by {
        assert(views(res@)[0] == y);
        assert(reachable(table@, r.view(), y, 0));
    }
    let mut i: usize = 0;
    proof {
        universe.lemma_cardinality_of_set();
    }
    while i < res.len()
        invariant
            i <= res@.len(),
            views(res@).contains(r.view()),
            views(res@).no_duplicates(),
            forall|y: RealisationView| #[trigger] views(res@).contains(y) ==> universe.contains(y),
            universe == seq![r.view()] + all_refs(table@),
            forall|y: RealisationView| #[trigger] views(res@).contains(y) ==> reached(table@, r.view(), y),
            universe.to_set().len() <= universe.len(),
            res@.len() <= universe.len(),
            forall|p: int, y: RealisationView|
                0 <= p < i && #[trigger] refers(table@, views(res@)[p], y) ==> views(res@).contains(
                    y,
                ),
        decreases 2 * universe.len() - res@.len() - i,
    {
        let x = res[i].copy();
        let ghost len0 = res@.len();
        let mut t: usize = 0;
        while t < table.len()
            invariant
                i < res@.len(),
                x.view() == views(res@)[i as int],
                res@.len() >= len0,
                t <= table@.len(),
                views(res@).contains(r.view()),
                views(res@).no_duplicates(),
                forall|y: RealisationView| #[trigger] views(res@).contains(y) ==> universe.contains(y),
                universe == seq![r.view()] + all_refs(table@),
            forall|y: RealisationView| #[trigger] views(res@).contains(y) ==> reached(table@, r.view(), y),
                universe.to_set().len() <= universe.len(),
                forall|p: int, y: RealisationView|
                    0 <= p < i && #[trigger] refers(table@, views(res@)[p], y) ==> views(
                        res@,
                    ).contains(y),
                forall|ti: int, j: int|
                    0 <= ti < t && table@[ti].0.view() == x.view() && 0 <= j
                        < table@[ti].1@.len() ==> views(res@).contains(
                        #[trigger] table@[ti].1@[j].view(),
                    ),
            decreases table@.len() - t,
        {
            if table[t].0.same(&x) {
                let refs = &table[t].1;
                let mut j: usize = 0;
                while j < refs.len()
                    invariant
                        i < res@.len(),
                        x.view() == views(res@)[i as int],
                        res@.len() >= len0,
                        t < table@.len(),
                        refs == &table@[t as int].1,
                        table@[t as int].0.view() == x.view(),
                        j <= refs@.len(),
                        views(res@).contains(r.view()),
                        views(res@).no_duplicates(),
                        forall|y: RealisationView| #[trigger] views(res@).contains(y) ==> universe.contains(y),
                        universe == seq![r.view()] + all_refs(table@),
            forall|y: RealisationView| #[trigger] views(res@).contains(y) ==> reached(table@, r.view(), y),
                        forall|p: int, y: RealisationView|
                            0 <= p < i && #[trigger] refers(table@, views(res@)[p], y) ==> views(
                                res@,
                            ).contains(y),
                        forall|ti: int, jj: int|
                            0 <= ti < t && table@[ti].0.view() == x.view() && 0 <= jj
                                < table@[ti].1@.len() ==> views(res@).contains(
                                #[trigger] table@[ti].1@[jj].view(),
                            ),
                        forall|jj: int|
                            0 <= jj < j ==> views(res@).contains(#[trigger] refs@[jj].view()),
                    decreases refs@.len() - j,
                {
                    let y = &refs[j];
                    if !contains_realisation(&res, y) {
                        let ghost before = views(res@);
                        res.push(y.copy());
                        proof {
                            assert(views(res@) =~= before.push(y.view()));
                            lemma_all_refs_contains(table@, t as int, j as int);
                            let ar = all_refs(table@);
                            let k0 = choose|k: int| 0 <= k < ar.len() && ar[k] == y.view();
                            assert(universe[1 + k0] == y.view());
                            assert(universe.contains(y.view()));
                            assert forall|z: RealisationView| #[trigger] views(res@).contains(z) implies universe.contains(z) by {
                                if z != y.view() {
                                    let k = choose|k: int| 0 <= k < views(res@).len() && views(res@)[k] == z;
                                    assert(before[k] == z);
                                    assert(before.contains(z));
                                }
                            }
                            assert forall|w: RealisationView| #[trigger] before.contains(w) implies views(res@).contains(w) by {
                                let k = choose|k: int| 0 <= k < before.len() && before[k] == w;
                                assert(views(res@)[k] == w);
                            }
                            assert(views(res@)[before.len() as int] == y.view());
                            assert(before.contains(x.view())) by {
                                assert(before[i as int] == x.view());
                            }
                            assert(reached(table@, r.view(), x.view()));
                            let n0 = choose|n: nat| reachable(table@, r.view(), x.view(), n);
                            assert(refers(table@, x.view(), y.view())) by {
                                assert(table@[t as int].0.view() == x.view());
                                assert(table@[t as int].1@[j as int].view() == y.view());
                            }
                            assert(reachable(table@, r.view(), y.view(), n0 + 1));
                            assert forall|z: RealisationView| #[trigger] views(res@).contains(z) implies reached(table@, r.view(), z) by {
                                if z != y.view() {
                                    let k = choose|k: int| 0 <= k < views(res@).len() && views(res@)[k] == z;
                                    assert(before[k] == z);
                                    assert(before.contains(z));
                                }
                            }
                        }
                    }
                    j = j + 1;
                }
            }
            t = t + 1;
        }
        proof {
            assert forall|p: int, y: RealisationView|
                0 <= p < i + 1 && #[trigger] refers(table@, views(res@)[p], y) implies views(
                    res@,
                ).contains(y) by {
                if p == i {
                    let (ti, j) = choose|ti: int, j: int|
                        0 <= ti < table@.len() && table@[ti].0.view() == views(res@)[p] && 0 <= j
                            < table@[ti].1@.len() && table@[ti].1@[j].view() == y;
                    assert(views(res@).contains(table@[ti].1@[j].view()));
                }
            }
            views(res@).unique_seq_to_set();
            vstd::seq_lib::seq_to_set_is_finite(universe);
            assert forall|z: RealisationView| views(res@).to_set().contains(z) implies universe.to_set().contains(z) by {
                assert(views(res@).contains(z));
            }
            assert(views(res@).to_set().subset_of(universe.to_set()));
            vstd::set_lib::lemma_len_subset(views(res@).to_set(), universe.to_set());
            assert(views(res@).len() == res@.len());
            assert(res@.len() <= universe.len());
        }
        i = i + 1;
    }
    proof {
        assert forall|x: RealisationView, y: RealisationView|
            #[trigger] views(res@).contains(x) && #[trigger] refers(table@, x, y) implies views(
                res@,
            ).contains(y) by {
            let p = choose|p: int| 0 <= p < views(res@).len() && views(res@)[p] == x;
            assert(refers(table@, views(res@)[p], y));
        }
        assert forall|y: RealisationView| #[trigger] views(res@).contains(y) implies y == r.view()
            || all_refs(table@).contains(y) by {
            let k = choose|k: int| 0 <= k < universe.len() && universe[k] == y;
            if k > 0 {
                assert(all_refs(table@)[k - 1] == y);
            }
        }
    }
    res
}

/// How a path lock is taken.
#[derive(Clone, Copy, Debug, PartialEq, Eq, Hash, Structural)]
pub enum LockMode {
    Read,
    Write,
    UnLock,
}

/// A row of the store-object table.
pub struct PathInfo {
    pub id: u32,
    pub path: StorePath,
    pub hash: crate::hash::Hash,
}

/// What a builtin builder gets: the derivation and the paths of its outputs.
pub struct Ctx {
    pub drv: StoreDrv,
    pub outputs: Vec<(String, String)>,
}

} // verus!
