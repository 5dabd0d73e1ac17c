//! Builders that run inside the engine: the recipe of a URL fetch and the
//! checks around it.
use crate::drv::{Drv, DrvBuilder, Expr, IntoDrv};
use crate::hash::str_eq;
use crate::hashmod::{EXEC_FILE_PERMISSION, FILE_PERMISSION};
use crate::store::{StoreDrv, StoreError};
use crate::store_path::to_base_name;
use vstd::prelude::*;

verus! {

/// A fixed-output download of a URL.
pub struct FetchUrl {
    pub name: Option<String>,
    pub url: String,
    pub hash: crate::hash::Hash,
    pub unpack: bool,
    pub executable: bool,
}

impl IntoDrv for FetchUrl {
    /// A recipe named after the URL's last component unless named, with the
    /// expected hash and the `fetchurl` builtin as its builder.
    fn into_drv(self) -> Drv {
        let name = match self.name {
            Some(n) => n,
            None => to_base_name(self.url.clone()),
        };
        DrvBuilder::new().name(name.as_str()).fixed_hash(self.hash).input(
            "url",
            Expr::Str(self.url),
        ).input_bool("unpack", self.unpack).input_bool("executable", self.executable).builder(
            Expr::Str("builtin:fetchurl".to_owned()),
        ).build()
    }
}

/// The value bound to `k` by the first binding of it.
pub open spec fn lookup(s: Seq<(String, String)>, k: Seq<char>) -> Option<Seq<char>>
    decreases s.len(),
{
    if s.len() == 0 {
        None
    } else if s[0].0@ == k {
        Some(s[0].1@)
    } else {
        lookup(s.drop_first(), k)
    }
}

/// The value of `key` among the bindings.
pub fn env_get(envs: &Vec<(String, String)>, key: &str) -> (r: Option<String>)
    ensures
        r is Some <==> lookup(envs@, key@) is Some,
        r is Some ==> r->0@ == lookup(envs@, key@)->0,
{
    let mut i: usize = 0;
    assert(envs@.subrange(0, envs@.len() as int) =~= envs@);
    while i < envs.len()
        invariant
            i <= envs@.len(),
            lookup(envs@, key@) == lookup(envs@.subrange(i as int, envs@.len() as int), key@),
        decreases envs@.len() - i,
    {
        let ghost rest = envs@.subrange(i as int, envs@.len() as int);
        assert(rest.drop_first() =~= envs@.subrange(i + 1, envs@.len() as int));
        assert(rest[0] == envs@[i as int]);
        if str_eq(envs[i].0.as_str(), key) {
            return Some(envs[i].1.clone());
        }
        i = i + 1;
    }
    assert(envs@.subrange(i as int, envs@.len() as int).len() == 0);
    None
}

/// What a URL fetch needs: where to download from, where to write and
/// whether the result is executable.
pub struct FetchPlan {
    pub url: String,
    pub out: String,
    pub executable: bool,
}

pub open spec fn is_one(v: Option<Seq<char>>) -> bool {
    v is Some && v->0 == seq!['1']
}

/// Checks a fetch derivation and says what to download: it must be
/// fixed-output, have an `out` output and a `url`; unpacking is not
/// implemented.
pub fn fetch_plan(drv: &StoreDrv, outputs: &Vec<(String, String)>) -> (r: Result<
    FetchPlan,
    StoreError,
>)
    ensures
        drv.fixed_hash is None ==> r is Err && r->Err_0 is FixedOutput,
        r is Ok ==> {
            &&& drv.fixed_hash is Some
            &&& lookup(outputs@, "out"@) == Some(r->Ok_0.out@)
            &&& lookup(drv.envs@, "url"@) == Some(r->Ok_0.url@)
            &&& !is_one(lookup(drv.envs@, "unpack"@))
            &&& r->Ok_0.executable == is_one(lookup(drv.envs@, "executable"@))
        },
        (drv.fixed_hash is Some && lookup(outputs@, "out"@) is Some && lookup(drv.envs@, "url"@) is Some
            && !is_one(lookup(drv.envs@, "unpack"@))) ==> r is Ok,
        (drv.fixed_hash is Some && lookup(outputs@, "out"@) is Some && lookup(drv.envs@, "url"@) is Some
            && is_one(lookup(drv.envs@, "unpack"@))) ==> r is Err && r->Err_0 is Unimplemented,
{
    proof {
        reveal_strlit("1");
    }
    if drv.fixed_hash.is_none() {
        return Err(StoreError::FixedOutput);
    }
    let out = match env_get(outputs, "out") {
        Some(o) => o,
        None => return Err(StoreError::MissingOutput("out".to_owned())),
    };
    let url = match env_get(&drv.envs, "url") {
        Some(u) => u,
        None => return Err(StoreError::MissingOutput("url".to_owned())),
    };
    assert("1"@ =~= seq!['1']);
    let unpack = match env_get(&drv.envs, "unpack") {
        Some(v) => str_eq(v.as_str(), "1"),
        None => false,
    };
    if unpack {
        return Err(StoreError::Unimplemented("unpack".to_owned()));
    }
    let executable = match env_get(&drv.envs, "executable") {
        Some(v) => str_eq(v.as_str(), "1"),
        None => false,
    };
    Ok(FetchPlan { url, out, executable })
}

/// A download succeeded when its status is 2xx.
pub fn check_fetch_status(url: &str, status: u16) -> (r: Result<(), StoreError>)
    ensures
        r is Ok <==> 200 <= status <= 299,
        r is Err ==> (r->Err_0 matches StoreError::FetchFailed(u, s) && u@ == url@ && s == status),
{
    if 200 <= status && status <= 299 {
        Ok(())
    } else {
        Err(StoreError::FetchFailed(url.to_owned(), status))
    }
}

/// The permission code a fetched file gets.
pub fn fetch_mode(executable: bool) -> (r: u64)
    ensures
        r == if executable {
            EXEC_FILE_PERMISSION
        } else {
            FILE_PERMISSION
        },
{
    if executable {
        EXEC_FILE_PERMISSION
    } else {
        FILE_PERMISSION
    }
}

} // verus!
