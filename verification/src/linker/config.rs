//! Parsing of pipeline-configuration lines into pass requests, and
//! construction of passes from the rule text the requests point at.
//!
//! A configuration line names a pass and its arguments.  Most passes take a
//! path to an auxiliary file whose contents hold their rules; reading those
//! files is the caller's business, so parsing yields a [`PassRequest`] and
//! [`build_pass`] turns a request's rule text into the pass itself.

use vstd::prelude::*;

verus! {

use crate::linker::pass::{
    Pass, RemoveNodePass, RegexEdgeGenPass, SubgraphExtractionPass, ReparentGraphPass,
    RemoveEdgesPass, parsed_rules, rule_matches_parsed, edge_rules,
};
use crate::linker::pattern::compilable;
use crate::linker::text::{
    ws_tokens, string_views, split_whitespace_owned, split_lines_spec, parse_usize, str_eq,
    all_digits, dec_val,
};

/// The passes that are configured through an auxiliary rule file.
#[derive(Debug, PartialEq, Eq, Structural, Clone, Copy)]
pub enum PassKind {
    TermNodes,
    RegexEdgeGen,
    ExtractSubgraph,
    Reparent,
    RemoveEdges,
}

/// What a configuration line asks for: either a pass that needs the
/// contents of the named rule file, or a pass built from the line alone.
#[derive(Debug)]
pub enum PassRequest {
    NeedsData(PassKind, String),
    CutDeg(Option<usize>, Option<usize>),
    UniqueEdges,
    Reverse,
}

/// Why a configuration line or a rule file is rejected.
#[derive(Debug, PartialEq, Eq, Structural, Clone, Copy)]
pub enum ConfigError {
    EmptyLine,
    UnknownPass,
    MissingArgument,
    BadPrefix,
    BadNumber,
    BadPattern,
}

/// The pass kind behind a configuration keyword, for the passes that read
/// a rule file.
pub open spec fn data_pass_kind(name: Seq<char>) -> Option<PassKind> {
    if name == "term_nodes"@ {
        Some(PassKind::TermNodes)
    } else if name == "regex_edge_gen"@ {
        Some(PassKind::RegexEdgeGen)
    } else if name == "extract_subgraph"@ {
        Some(PassKind::ExtractSubgraph)
    } else if name == "reparent"@ {
        Some(PassKind::Reparent)
    } else if name == "remove_edges"@ {
        Some(PassKind::RemoveEdges)
    } else {
        None
    }
}

/// The degree bounds collected from the arguments of a `cut_deg` line: a
/// `+` prefix sets the incoming bound, `-` the outgoing one, later
/// arguments overriding earlier ones; anything else is rejected.
pub open spec fn cut_deg_args(args: Seq<Seq<char>>) -> Result<
    (Option<usize>, Option<usize>),
    ConfigError,
>
    decreases args.len(),
{
    if args.len() == 0 {
        Ok((None, None))
    } else {
        match cut_deg_args(args.drop_last()) {
            Ok(acc) => {
                let a = args.last();
                if a.len() == 0 {
                    Err(ConfigError::BadPrefix)
                } else if a[0] == '+' {
                    let num = a.skip(1);
                    if num.len() > 0 && all_digits(num) && dec_val(num) <= usize::MAX {
                        Ok((Some(dec_val(num) as usize), acc.1))
                    } else {
                        Err(ConfigError::BadNumber)
                    }
                } else if a[0] == '-' {
                    let num = a.skip(1);
                    if num.len() > 0 && all_digits(num) && dec_val(num) <= usize::MAX {
                        Ok((acc.0, Some(dec_val(num) as usize)))
                    } else {
                        Err(ConfigError::BadNumber)
                    }
                } else {
                    Err(ConfigError::BadPrefix)
                }
            },
            Err(e) => Err(e),
        }
    }
}

/// An error among the first arguments settles the whole argument list.
proof fn lemma_cut_deg_args_err(args: Seq<Seq<char>>, k: int)
    requires
        0 <= k <= args.len(),
        cut_deg_args(args.take(k)) is Err,
    ensures
        cut_deg_args(args) == cut_deg_args(args.take(k)),
    decreases args.len() - k,
{
    if k < args.len() {
        assert(args.take(k + 1).drop_last() =~= args.take(k));
        lemma_cut_deg_args_err(args, k + 1);
    } else {
        assert(args.take(k) =~= args);
    }
}

/// Parses one configuration line: the first word names the pass, the rest
/// are its arguments.
pub fn parse_config_line(line: &str) -> (r: Result<PassRequest, ConfigError>)
    ensures
        ({
            let ts = ws_tokens(line@);
            if ts.len() == 0 {
                r == Err::<PassRequest, ConfigError>(ConfigError::EmptyLine)
            } else if data_pass_kind(ts[0]) is Some {
                if ts.len() >= 2 {
                    match r {
                        Ok(req) => match req {
                            PassRequest::NeedsData(k, p) => Some(k) == data_pass_kind(ts[0]) && p@
                                == ts[1],
                            _ => false,
                        },
                        Err(_) => false,
                    }
                } else {
                    r == Err::<PassRequest, ConfigError>(ConfigError::MissingArgument)
                }
            } else if ts[0] == "cut_deg"@ {
                match cut_deg_args(ts.drop_first()) {
                    Ok(acc) => r == Ok::<PassRequest, ConfigError>(
                        PassRequest::CutDeg(acc.0, acc.1),
                    ),
                    Err(e) => r == Err::<PassRequest, ConfigError>(e),
                }
            } else if ts[0] == "unique_edges"@ {
                r == Ok::<PassRequest, ConfigError>(PassRequest::UniqueEdges)
            } else if ts[0] == "reverse"@ {
                r == Ok::<PassRequest, ConfigError>(PassRequest::Reverse)
            } else {
                r == Err::<PassRequest, ConfigError>(ConfigError::UnknownPass)
            }
        }),
{
    let ghost ts = ws_tokens(line@);
    let words = split_whitespace_owned(line);
    proof {
        assert(forall|k: int| 0 <= k < words@.len() ==> string_views(words@)[k] == (
        #[trigger] words@[k])@);
    }
    if words.len() == 0 {
        return Err(ConfigError::EmptyLine);
    }
    let head = words[0].as_str();
    let is_data_pass = str_eq(head, "term_nodes") || str_eq(head, "regex_edge_gen") || str_eq(
        head,
        "extract_subgraph",
    ) || str_eq(head, "reparent") || str_eq(head, "remove_edges");
    if is_data_pass {
        if words.len() < 2 {
            return Err(ConfigError::MissingArgument);
        }
        let kind = if str_eq(head, "term_nodes") {
            PassKind::TermNodes
        } else if str_eq(head, "regex_edge_gen") {
            PassKind::RegexEdgeGen
        } else if str_eq(head, "extract_subgraph") {
            PassKind::ExtractSubgraph
        } else if str_eq(head, "reparent") {
            PassKind::Reparent
        } else {
            PassKind::RemoveEdges
        };
        let path = words[1].clone();
        return Ok(PassRequest::NeedsData(kind, path));
    }
    if str_eq(head, "cut_deg") {
        let ghost args = ts.drop_first();
        proof {
            assert(forall|j: int| 0 <= j < args.len() ==> #[trigger] args[j] == ts[j + 1]);
        }
        let mut incoming: Option<usize> = None;
        let mut outgoing: Option<usize> = None;
        let nwords = words.len();
        let mut k: usize = 1;
        proof {
            assert(args.take(0) =~= Seq::<Seq<char>>::empty());
        }
        while k < nwords
            invariant
                ts == ws_tokens(line@),
                string_views(words@) == ts,
                ts.len() > 0,
                data_pass_kind(ts[0]) is None,
                ts[0] == "cut_deg"@,
                args == ts.drop_first(),
                nwords == words@.len(),
                nwords == ts.len(),
                1 <= k <= nwords,
                forall|j: int| 0 <= j < args.len() ==> #[trigger] args[j] == ts[j + 1],
                cut_deg_args(args.take(k - 1)) == Ok::<(Option<usize>, Option<usize>), ConfigError>(
                    (incoming, outgoing),
                ),
            decreases nwords - k,
        {
            proof {
                assert(args.take(k as int).drop_last() =~= args.take(k - 1));
                assert(args.take(k as int).last() == args[k - 1]);
                assert(args[k - 1] == (words@[k as int])@);
            }
            let arg = words[k].as_str();
            let alen = arg.unicode_len();
            if alen == 0 {
                proof {
                    assert(cut_deg_args(args.take(k as int)) == Err::<
                        (Option<usize>, Option<usize>),
                        ConfigError,
                    >(ConfigError::BadPrefix));
                    lemma_cut_deg_args_err(args, k as int);
                }
                return Err(ConfigError::BadPrefix);
            }
            let sign = arg.get_char(0);
            if sign == '+' {
                let num = arg.substring_char(1, alen);
                proof {
                    assert(num@ =~= args[k - 1].skip(1));
                }
                match parse_usize(num) {
                    Some(v) => {
                        incoming = Some(v);
                    },
                    None => {
                        proof {
                            assert(cut_deg_args(args.take(k as int)) == Err::<
                                (Option<usize>, Option<usize>),
                                ConfigError,
                            >(ConfigError::BadNumber));
                            lemma_cut_deg_args_err(args, k as int);
                        }
                        return Err(ConfigError::BadNumber);
                    },
                }
            } else if sign == '-' {
                let num = arg.substring_char(1, alen);
                proof {
                    assert(num@ =~= args[k - 1].skip(1));
                }
                match parse_usize(num) {
                    Some(v) => {
                        outgoing = Some(v);
                    },
                    None => {
                        proof {
                            assert(cut_deg_args(args.take(k as int)) == Err::<
                                (Option<usize>, Option<usize>),
                                ConfigError,
                            >(ConfigError::BadNumber));
                            lemma_cut_deg_args_err(args, k as int);
                        }
                        return Err(ConfigError::BadNumber);
                    },
                }
            } else {
                proof {
                    assert(cut_deg_args(args.take(k as int)) == Err::<
                        (Option<usize>, Option<usize>),
                        ConfigError,
                    >(ConfigError::BadPrefix));
                    lemma_cut_deg_args_err(args, k as int);
                }
                return Err(ConfigError::BadPrefix);
            }
            k += 1;
        }
        proof {
            assert(args.take(nwords - 1) =~= args);
        }
        return Ok(PassRequest::CutDeg(incoming, outgoing));
    }
    if str_eq(head, "unique_edges") {
        return Ok(PassRequest::UniqueEdges);
    }
    if str_eq(head, "reverse") {
        return Ok(PassRequest::Reverse);
    }
    Err(ConfigError::UnknownPass)
}

/// Builds the pass a [`PassRequest::NeedsData`] asks for, from the
/// contents of its rule file.
pub fn build_pass(kind: PassKind, data: &str) -> (r: Result<Pass, ConfigError>)
    ensures
        match kind {
            PassKind::TermNodes => match r {
                Ok(p) => p matches Pass::RemoveNode(q) && q.patterns().len() == ws_tokens(
                    data@,
                ).len() && forall|k: int|
                    0 <= k < ws_tokens(data@).len() ==> q.patterns()[k] == #[trigger] ws_tokens(
                        data@,
                    )[k],
                Err(e) => e == ConfigError::BadPattern,
            },
            PassKind::RegexEdgeGen => match r {
                Ok(p) => p matches Pass::RegexEdgeGen(q) && {
                    let ps = parsed_rules(split_lines_spec(data@));
                    &&& q.rules_seq().len() == ps.len()
                    &&& forall|k: int|
                        0 <= k < ps.len() ==> rule_matches_parsed(#[trigger] q.rules_seq()[k], ps[k])
                },
                Err(_) => false,
            },
            PassKind::ExtractSubgraph => match r {
                Ok(p) => p matches Pass::SubgraphExtraction(q) && q.tags_seq() == ws_tokens(data@),
                Err(_) => false,
            },
            PassKind::Reparent => match r {
                Ok(p) => p matches Pass::Reparent(q) && q.patterns() == compilable(
                    split_lines_spec(data@),
                ),
                Err(_) => false,
            },
            PassKind::RemoveEdges => match r {
                Ok(p) => p matches Pass::RemoveEdges(q) && edge_rules(split_lines_spec(data@))
                    == Some(q.rules_views()),
                Err(e) => e == ConfigError::BadPattern && edge_rules(split_lines_spec(data@))
                    is None,
            },
        },
{
    match kind {
        PassKind::TermNodes => match RemoveNodePass::new_from_str(data) {
            Some(p) => Ok(Pass::RemoveNode(p)),
            None => Err(ConfigError::BadPattern),
        },
        PassKind::RegexEdgeGen => Ok(Pass::RegexEdgeGen(RegexEdgeGenPass::new_from_str(data))),
        PassKind::ExtractSubgraph => Ok(
            Pass::SubgraphExtraction(SubgraphExtractionPass::new_from_str(data)),
        ),
        PassKind::Reparent => Ok(Pass::Reparent(ReparentGraphPass::new_from_str(data))),
        PassKind::RemoveEdges => match RemoveEdgesPass::new_from_str(data) {
            Some(p) => Ok(Pass::RemoveEdges(p)),
            None => Err(ConfigError::BadPattern),
        },
    }
}

} // verus!
