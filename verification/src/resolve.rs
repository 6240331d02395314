//! Specifier resolution: a raw import string plus the specifier of the
//! referring module is turned into a canonical module specifier, consulting
//! an import map first when one is configured.
use vstd::prelude::*;

use crate::text::{ends_with, starts_with, str_char_len};
use crate::urls::{join_url, parse_url, url_canon, url_join_canon};

verus! {

/// Why a raw specifier could not be resolved.
#[derive(Clone, Copy, PartialEq, Eq, Structural, Debug)]
pub enum ResolveError {
    /// The specifier is bare (no scheme, not `/`-, `./`- or `../`-prefixed).
    ImportPrefixMissing,
    /// The specifier or its join against the referrer is not a valid URL.
    InvalidSpecifier,
    /// An import-map entry matched but its substitute target is not a valid URL.
    InvalidMapTarget,
}

/// Result of a resolution step, with the specifier as characters.
pub type ResolvedSpec = Result<Seq<char>, ResolveError>;

/// View of an executable resolution result.
pub open spec fn res_view(r: Result<String, ResolveError>) -> ResolvedSpec {
    match r {
        Ok(s) => Ok(s@),
        Err(e) => Err(e),
    }
}

/// A raw specifier in relative form: rooted at `/`, or `./`-/`../`-prefixed.
pub open spec fn is_relative_form(s: Seq<char>) -> bool {
    "/"@.is_prefix_of(s) || "./"@.is_prefix_of(s) || "../"@.is_prefix_of(s)
}

/// Standard resolution: an absolute URL stands as it is; a relative form is
/// joined against the referrer; a bare specifier is refused.
pub open spec fn resolve_import_spec(raw: Seq<char>, referrer: Seq<char>) -> ResolvedSpec {
    match url_canon(raw) {
        Some(c) => Ok(c),
        None => if is_relative_form(raw) {
            match url_join_canon(referrer, raw) {
                Some(c) => Ok(c),
                None => Err(ResolveError::InvalidSpecifier),
            }
        } else {
            Err(ResolveError::ImportPrefixMissing)
        },
    }
}

/// Resolves `raw` against `referrer` without an import map.
pub fn resolve_import(raw: &str, referrer: &str) -> (r: Result<String, ResolveError>)
    ensures
        res_view(r) == resolve_import_spec(raw@, referrer@),
{
    match parse_url(raw) {
        Some(c) => Ok(c),
        None => {
            if starts_with(raw, "/") || starts_with(raw, "./") || starts_with(raw, "../") {
                match join_url(referrer, raw) {
                    Some(c) => Ok(c),
                    None => Err(ResolveError::InvalidSpecifier),
                }
            } else {
                Err(ResolveError::ImportPrefixMissing)
            }
        },
    }
}

/// One import-map entry: a key matched against raw specifiers and the
/// substitute target. A key ending in `/` matches every specifier it
/// prefixes; any other key matches only the identical specifier.
pub struct ImportMapEntry {
    pub key: String,
    pub target: String,
}

/// An externally supplied, read-only aliasing table consulted before
/// standard resolution. The first matching entry wins.
pub struct ImportMap {
    pub entries: Vec<ImportMapEntry>,
}

/// Whether `e` matches the raw specifier.
pub open spec fn map_hit(e: ImportMapEntry, raw: Seq<char>) -> bool {
    e.key@ == raw || ("/"@.is_suffix_of(e.key@) && e.key@.is_prefix_of(raw))
}

/// What a matching entry maps `raw` to: the target (with the rest of the
/// specifier appended, for a prefix key) parsed as an absolute URL; a target
/// that does not parse is an explicit mapping failure.
pub open spec fn map_target(e: ImportMapEntry, raw: Seq<char>) -> ResolvedSpec {
    let expanded = if e.key@ == raw {
        e.target@
    } else {
        e.target@ + raw.skip(e.key@.len() as int)
    };
    match url_canon(expanded) {
        Some(c) => Ok(c),
        None => Err(ResolveError::InvalidMapTarget),
    }
}

/// The first matching entry's mapping, or `None` when no entry matches.
pub open spec fn map_resolve(entries: Seq<ImportMapEntry>, raw: Seq<char>) -> Option<ResolvedSpec>
    decreases entries.len(),
{
    if entries.len() == 0 {
        None
    } else if map_hit(entries[0], raw) {
        Some(map_target(entries[0], raw))
    } else {
        map_resolve(entries.drop_first(), raw)
    }
}

/// The resolver: import-map aliasing first, then standard resolution.
pub struct DocResolver {
    pub import_map: Option<ImportMap>,
}

/// Resolution order stated in one place: a matching import-map entry decides
/// (its failures propagate); with no entry, and with no import map at all,
/// standard resolution applies.
pub open spec fn resolver_spec(r: DocResolver, raw: Seq<char>, referrer: Seq<char>) -> ResolvedSpec {
    match r.import_map {
        Some(m) => match map_resolve(m.entries@, raw) {
            Some(res) => res,
            None => resolve_import_spec(raw, referrer),
        },
        None => resolve_import_spec(raw, referrer),
    }
}

impl DocResolver {
    /// Maps a raw import specifier to the canonical specifier of its target.
    pub fn resolve(&self, raw: &str, referrer: &str) -> (r: Result<String, ResolveError>)
        ensures
            res_view(r) == resolver_spec(*self, raw@, referrer@),
    {
        match self.import_map.as_ref() {
            None => resolve_import(raw, referrer),
            Some(m) => {
                assert(self.import_map == Some(*m));
                let n = m.entries.len();
                assert(m.entries@.skip(0) =~= m.entries@);
                let mut i: usize = 0;
                while i < n
                    invariant
                        0 <= i <= n,
                        n == m.entries@.len(),
                        self.import_map == Some(*m),
                        map_resolve(m.entries@, raw@) == map_resolve(m.entries@.skip(i as int), raw@),
                    decreases n - i,
                {
                    let e = &m.entries[i];
                    proof {
                        assert(m.entries@.skip(i as int)[0] == m.entries@[i as int]);
                        assert(m.entries@.skip(i as int).drop_first() =~= m.entries@.skip(i + 1));
                    }
                    let klen = str_char_len(e.key.as_str());
                    let exact = e.key.eq(&String::from_str(raw));
                    let prefix_hit = ends_with(e.key.as_str(), "/") && starts_with(raw, e.key.as_str());
                    if exact || prefix_hit {
                        assert(map_hit(m.entries@[i as int], raw@));
                        assert(map_resolve(m.entries@.skip(i as int), raw@) == Some(
                            map_target(m.entries@[i as int], raw@),
                        ));
                        let expanded: String = if exact {
                            e.target.clone()
                        } else {
                            let rlen = str_char_len(raw);
                            let rest = raw.substring_char(klen, rlen);
                            e.target.clone().concat(rest)
                        };
                        assert(expanded@ == (if m.entries@[i as int].key@ == raw@ {
                            m.entries@[i as int].target@
                        } else {
                            m.entries@[i as int].target@ + raw@.skip(
                                m.entries@[i as int].key@.len() as int,
                            )
                        }));
                        proof {
                            assert(self.import_map == Some(*m));
                            assert(resolver_spec(*self, raw@, referrer@) == map_target(
                                m.entries@[i as int],
                                raw@,
                            ));
                        }
                        match parse_url(expanded.as_str()) {
                            Some(c) => {
                                return Ok(c);
                            },
                            None => {
                                return Err(ResolveError::InvalidMapTarget);
                            },
                        }
                    }
                    assert(!map_hit(m.entries@[i as int], raw@));
                    assert(map_resolve(m.entries@.skip(i as int), raw@) == map_resolve(
                        m.entries@.skip(i + 1),
                        raw@,
                    ));
                    i = i + 1;
                }
                assert(m.entries@.skip(n as int) =~= Seq::<ImportMapEntry>::empty());
                resolve_import(raw, referrer)
            },
        }
    }
}

} // verus!
