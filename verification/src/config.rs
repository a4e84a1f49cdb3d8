//! Detector configuration: which frameworks, event conventions and database macros the
//! language adapters look for. Every field has a default, so a project without an
//! `impact.toml` still gets API, event and database detection out of the box.
use vstd::prelude::*;

use crate::engine::string_views;

verus! {

/// How an adapter recognizes event types: `MarkerTrait` looks for `impl <trait> for X`;
/// `NamingConvention` matches a type's bare name against `event_naming_suffix` (a plain
/// suffix check, not a pattern language).
#[derive(Debug, Clone, Copy, PartialEq, Eq, Structural)]
pub enum EventStrategy {
    MarkerTrait,
    NamingConvention,
}

impl Default for EventStrategy {
    fn default() -> (s: Self)
        ensures
            s == EventStrategy::MarkerTrait,
    {
        EventStrategy::MarkerTrait
    }
}

#[derive(Debug, Clone)]
pub struct DetectorConfig {
    pub api_frameworks: Vec<String>,
    pub event_strategy: EventStrategy,
    pub event_marker_trait: String,
    pub event_naming_suffix: String,
    pub database_macros: Vec<String>,
}

/// The frameworks whose route registrations are detected by default.
pub open spec fn default_frameworks() -> Seq<Seq<char>> {
    seq!["axum"@, "net/http"@, "fastapi"@, "flask"@, "express"@, "fastify"@]
}

/// The database macros detected by default.
pub open spec fn default_macros() -> Seq<Seq<char>> {
    seq!["query"@, "query_as"@, "query_scalar"@]
}

/// `r` holds the default configuration.
pub open spec fn is_default_config(r: DetectorConfig) -> bool {
    &&& string_views(r.api_frameworks@) == default_frameworks()
    &&& r.event_strategy == EventStrategy::MarkerTrait
    &&& r.event_marker_trait@ == "Event"@
    &&& r.event_naming_suffix@ == "Event"@
    &&& string_views(r.database_macros@) == default_macros()
}

impl Default for DetectorConfig {
    fn default() -> (r: Self)
        ensures
            is_default_config(r),
    {
        let api_frameworks = vec![
            "axum".to_string(),
            "net/http".to_string(),
            "fastapi".to_string(),
            "flask".to_string(),
            "express".to_string(),
            "fastify".to_string(),
        ];
        let database_macros = vec!["query".to_string(), "query_as".to_string(), "query_scalar".to_string()];
        let r = DetectorConfig {
            api_frameworks,
            event_strategy: EventStrategy::MarkerTrait,
            event_marker_trait: "Event".to_string(),
            event_naming_suffix: "Event".to_string(),
            database_macros,
        };
        proof {
            assert(string_views(r.api_frameworks@) =~= default_frameworks());
            assert(string_views(r.database_macros@) =~= default_macros());
        }
        r
    }
}

/// The settings an `impact.toml` spells out; what it leaves out keeps its default.
#[derive(Debug, Clone)]
pub struct DetectorOverrides {
    pub api_frameworks: Option<Vec<String>>,
    pub event_strategy: Option<EventStrategy>,
    pub event_marker_trait: Option<String>,
    pub event_naming_suffix: Option<String>,
    pub database_macros: Option<Vec<String>>,
}

impl DetectorConfig {
    /// The defaults with every setting `overrides` spells out laid over them.
    pub fn with_overrides(overrides: DetectorOverrides) -> (r: Self)
        ensures
            string_views(r.api_frameworks@) == match overrides.api_frameworks {
                Some(v) => string_views(v@),
                None => default_frameworks(),
            },
            r.event_strategy == match overrides.event_strategy {
                Some(s) => s,
                None => EventStrategy::MarkerTrait,
            },
            r.event_marker_trait@ == match overrides.event_marker_trait {
                Some(s) => s@,
                None => "Event"@,
            },
            r.event_naming_suffix@ == match overrides.event_naming_suffix {
                Some(s) => s@,
                None => "Event"@,
            },
            string_views(r.database_macros@) == match overrides.database_macros {
                Some(v) => string_views(v@),
                None => default_macros(),
            },
    {
        let mut config = DetectorConfig::default();
        if let Some(frameworks) = overrides.api_frameworks {
            config.api_frameworks = frameworks;
        }
        if let Some(strategy) = overrides.event_strategy {
            config.event_strategy = strategy;
        }
        if let Some(marker_trait) = overrides.event_marker_trait {
            config.event_marker_trait = marker_trait;
        }
        if let Some(naming_suffix) = overrides.event_naming_suffix {
            config.event_naming_suffix = naming_suffix;
        }
        if let Some(macros) = overrides.database_macros {
            config.database_macros = macros;
        }
        config
    }
}

} // verus!
