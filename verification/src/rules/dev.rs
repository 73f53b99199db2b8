//! Caches of development tools.

use vstd::prelude::*;

use crate::item::Risk;
use crate::rules::{
    strs, models, Action, Applicability, ApplicabilityModel, Detector, DetectorModel, Rule,
    RuleModel,
};

verus! {

pub const PIP_NOTES: &'static str = "pip re-downloads/rebuilds wheels as needed.";

pub const NPM_NOTES: &'static str = "npm re-downloads packages as needed.";

pub const PNPM_NOTES: &'static str = "pnpm rebuilds its content-addressed store as needed.";

pub const GO_NOTES: &'static str = "go rebuilds this cache as needed.";

pub const CARGO_NOTES: &'static str =
    "Only the extracted-crate cache; registry git/index metadata is untouched.";

/// A rule that deletes one directory of the user's.
pub open spec fn cache_rule(
    id: Seq<char>,
    title: Seq<char>,
    dir: Seq<char>,
    notes: Seq<char>,
) -> RuleModel {
    RuleModel {
        id,
        title,
        risk: Risk::Safe,
        requires_sudo: false,
        applicable: ApplicabilityModel::Always,
        allowed_prefixes: seq![dir],
        detector: DetectorModel::Globs(seq![dir]),
        action: Action::DeletePaths,
        notes,
    }
}

pub fn cache(
    id: &'static str,
    title: &'static str,
    dir: &'static str,
    notes: &'static str,
) -> (r: Rule)
    ensures
        r@ == cache_rule(id@, title@, dir@, notes@),
{
    let r = Rule {
        id,
        title,
        risk: Risk::Safe,
        requires_sudo: false,
        applicable: Applicability::Always,
        allowed_prefixes: vec![dir],
        detector: Detector::Globs(vec![dir]),
        action: Action::DeletePaths,
        notes,
    };
    assert(strs(r.allowed_prefixes@) =~= seq![dir@]);
    assert(r.detector@->Globs_0 =~= seq![dir@]);
    r
}

pub open spec fn table() -> Seq<RuleModel> {
    seq![
        cache_rule("dev.pip"@, "pip cache"@, "~/.cache/pip"@, PIP_NOTES@),
        cache_rule("dev.npm"@, "npm cache"@, "~/.npm/_cacache"@, NPM_NOTES@),
        cache_rule("dev.pnpm"@, "pnpm store"@, "~/.local/share/pnpm/store"@, PNPM_NOTES@),
        cache_rule("dev.go"@, "Go build cache"@, "~/.cache/go-build"@, GO_NOTES@),
        cache_rule(
            "dev.cargo_registry"@,
            "Cargo registry cache"@,
            "~/.cargo/registry/cache"@,
            CARGO_NOTES@,
        ),
    ]
}

pub fn rules() -> (r: Vec<Rule>)
    ensures
        models(r@) == table(),
{
    let r = vec![
        cache("dev.pip", "pip cache", "~/.cache/pip", PIP_NOTES),
        cache("dev.npm", "npm cache", "~/.npm/_cacache", NPM_NOTES),
        cache("dev.pnpm", "pnpm store", "~/.local/share/pnpm/store", PNPM_NOTES),
        cache("dev.go", "Go build cache", "~/.cache/go-build", GO_NOTES),
        cache(
            "dev.cargo_registry",
            "Cargo registry cache",
            "~/.cargo/registry/cache",
            CARGO_NOTES,
        ),
    ];
    assert(models(r@) =~= table());
    r
}

} // verus!
