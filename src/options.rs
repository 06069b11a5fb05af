//! The broker's command line.
use vstd::prelude::*;
use vstd::string::*;
use crate::authorization::{specs_view, AuthorizationSpec, AuthorizationSpecView};
use crate::parse::spec_parse_authorization;
use crate::topic::string_views;
use crate::topic_tree::str_equal;

verus! {

/// The certificate and key files for TLS.
pub struct TLSOption {
    pub keyfile: String,
    pub certfile: String,
}

/// How clients authenticate.
pub enum AuthenticationOption {
    /// Every client is let in, as `nobody`.
    Anonymous,
    /// Against a password file.
    Basic(String),
    /// Against an LDAP server at a URL.
    Ldap(String),
}

pub enum AuthenticationView {
    Anonymous,
    Basic(Seq<char>),
    Ldap(Seq<char>),
}

pub open spec fn authentication_view(a: AuthenticationOption) -> AuthenticationView {
    match a {
        AuthenticationOption::Anonymous => AuthenticationView::Anonymous,
        AuthenticationOption::Basic(p) => AuthenticationView::Basic(p@),
        AuthenticationOption::Ldap(u) => AuthenticationView::Ldap(u@),
    }
}

pub struct Options {
    pub socket_endpoint: String,
    pub web_socket_endpoint: String,
    pub authorizations: Vec<AuthorizationSpec>,
    pub authorizations_file: Option<String>,
    pub tls: Option<TLSOption>,
    pub authentication: AuthenticationOption,
}

/// What the arguments given so far set.
pub struct ParsedArgs {
    pub socket_endpoint: Option<Seq<char>>,
    pub web_socket_endpoint: Option<Seq<char>>,
    pub authorizations: Seq<AuthorizationSpecView>,
    pub authorizations_file: Option<Seq<char>>,
    pub tls: Option<(Seq<char>, Seq<char>)>,
    pub authentication: Option<AuthenticationView>,
}

pub open spec fn nothing_parsed() -> ParsedArgs {
    ParsedArgs {
        socket_endpoint: None,
        web_socket_endpoint: None,
        authorizations: Seq::empty(),
        authorizations_file: None,
        tls: None,
        authentication: None,
    }
}

/// Reads the arguments from position `i` on: each option at most once
/// (but `--authorization`, which adds a spec each time), each with its
/// values. `None` where an argument is unknown, a value is missing, an
/// option is repeated, an authorization spec does not parse, or help is
/// asked for.
pub open spec fn scan(args: Seq<Seq<char>>, i: int, acc: ParsedArgs) -> Option<ParsedArgs>
    decreases args.len() - i,
{
    if i >= args.len() {
        Some(acc)
    } else {
        let a = args[i];
        if a == "--socket-endpoint"@ {
            if acc.socket_endpoint is Some || i + 1 >= args.len() {
                None
            } else {
                scan(args, i + 2, ParsedArgs { socket_endpoint: Some(args[i + 1]), ..acc })
            }
        } else if a == "--web-socket-endpoint"@ {
            if acc.web_socket_endpoint is Some || i + 1 >= args.len() {
                None
            } else {
                scan(args, i + 2, ParsedArgs { web_socket_endpoint: Some(args[i + 1]), ..acc })
            }
        } else if a == "--authorization"@ {
            if i + 1 >= args.len() {
                None
            } else {
                match spec_parse_authorization(args[i + 1]) {
                    Some(spec) => scan(
                        args,
                        i + 2,
                        ParsedArgs { authorizations: acc.authorizations.push(spec), ..acc },
                    ),
                    None => None,
                }
            }
        } else if a == "--authorizations-file"@ {
            if acc.authorizations_file is Some || i + 1 >= args.len() {
                None
            } else {
                scan(args, i + 2, ParsedArgs { authorizations_file: Some(args[i + 1]), ..acc })
            }
        } else if a == "--tls"@ {
            if acc.tls is Some || i + 2 >= args.len() {
                None
            } else {
                scan(args, i + 3, ParsedArgs { tls: Some((args[i + 1], args[i + 2])), ..acc })
            }
        } else if a == "--authentication"@ {
            if acc.authentication is Some || i + 1 >= args.len() {
                None
            } else if args[i + 1] == "none"@ {
                scan(args, i + 2, ParsedArgs { authentication: Some(AuthenticationView::Anonymous), ..acc })
            } else if args[i + 1] == "basic"@ || args[i + 1] == "ldap"@ {
                if i + 2 >= args.len() {
                    None
                } else if args[i + 1] == "basic"@ {
                    scan(
                        args,
                        i + 3,
                        ParsedArgs { authentication: Some(AuthenticationView::Basic(args[i + 2])), ..acc },
                    )
                } else {
                    scan(
                        args,
                        i + 3,
                        ParsedArgs { authentication: Some(AuthenticationView::Ldap(args[i + 2])), ..acc },
                    )
                }
            } else {
                None
            }
        } else {
            None
        }
    }
}

pub open spec fn default_socket_endpoint() -> Seq<char> {
    "0.0.0.0:8558"@
}

pub open spec fn default_web_socket_endpoint() -> Seq<char> {
    "0.0.0.0:8559"@
}

/// The options that parsed arguments give, with the defaults for what
/// they leave unset.
pub open spec fn options_from(o: Options, p: ParsedArgs) -> bool {
    &&& o.socket_endpoint@ == match p.socket_endpoint {
        Some(e) => e,
        None => default_socket_endpoint(),
    }
    &&& o.web_socket_endpoint@ == match p.web_socket_endpoint {
        Some(e) => e,
        None => default_web_socket_endpoint(),
    }
    &&& specs_view(o.authorizations@) == p.authorizations
    &&& match (o.authorizations_file, p.authorizations_file) {
        (Some(f), Some(g)) => f@ == g,
        (None, None) => true,
        _ => false,
    }
    &&& match (o.tls, p.tls) {
        (Some(t), Some(u)) => t.certfile@ == u.0 && t.keyfile@ == u.1,
        (None, None) => true,
        _ => false,
    }
    &&& authentication_view(o.authentication) == match p.authentication {
        Some(a) => a,
        None => AuthenticationView::Anonymous,
    }
}

pub open spec fn parsed_view(
    socket_endpoint: Option<String>,
    web_socket_endpoint: Option<String>,
    authorizations: Seq<AuthorizationSpec>,
    authorizations_file: Option<String>,
    tls: Option<TLSOption>,
    authentication: Option<AuthenticationOption>,
) -> ParsedArgs {
    ParsedArgs {
        socket_endpoint: match socket_endpoint {
            Some(e) => Some(e@),
            None => None,
        },
        web_socket_endpoint: match web_socket_endpoint {
            Some(e) => Some(e@),
            None => None,
        },
        authorizations: specs_view(authorizations),
        authorizations_file: match authorizations_file {
            Some(f) => Some(f@),
            None => None,
        },
        tls: match tls {
            Some(t) => Some((t.certfile@, t.keyfile@)),
            None => None,
        },
        authentication: match authentication {
            Some(a) => Some(authentication_view(a)),
            None => None,
        },
    }
}

impl Options {
    /// Parses the command line; `args[0]` is the program's name.
    pub fn parse(args: &Vec<String>) -> (r: Result<Options, String>)
        ensures
            match scan(string_views(args@), 1, nothing_parsed()) {
                Some(p) => r matches Ok(o) && options_from(o, p),
                None => r is Err,
            },
    {
        let ghost av = string_views(args@);
        let mut socket_endpoint: Option<String> = None;
        let mut web_socket_endpoint: Option<String> = None;
        let mut authorizations: Vec<AuthorizationSpec> = Vec::new();
        let mut authorizations_file: Option<String> = None;
        let mut tls: Option<TLSOption> = None;
        let mut authentication: Option<AuthenticationOption> = None;
        let mut arg_index: usize = 1;
        assert(specs_view(authorizations@) =~= Seq::<AuthorizationSpecView>::empty());
        while arg_index < args.len()
            invariant
                av == string_views(args@),
                1 <= arg_index,
                scan(av, 1, nothing_parsed()) == scan(
                    av,
                    arg_index as int,
                    parsed_view(
                        socket_endpoint,
                        web_socket_endpoint,
                        authorizations@,
                        authorizations_file,
                        tls,
                        authentication,
                    ),
                ),
            decreases args.len() - arg_index,
        {
            let ghost i = arg_index as int;
            let ghost before = parsed_view(
                socket_endpoint,
                web_socket_endpoint,
                authorizations@,
                authorizations_file,
                tls,
                authentication,
            );
            let arg_name = args[arg_index].as_str();
            assert(av[i] == arg_name@);
            if str_equal(arg_name, "--socket-endpoint") {
                let endpoint = match check_fetch_arg(arg_name, &socket_endpoint, args, &mut arg_index) {
                    Ok(e) => e,
                    Err(e) => return Err(e),
                };
                assert(av[i + 1] == endpoint@);
                socket_endpoint = Some(endpoint);
            } else if str_equal(arg_name, "--web-socket-endpoint") {
                let endpoint = match check_fetch_arg(arg_name, &web_socket_endpoint, args, &mut arg_index) {
                    Ok(e) => e,
                    Err(e) => return Err(e),
                };
                assert(av[i + 1] == endpoint@);
                web_socket_endpoint = Some(endpoint);
            } else if str_equal(arg_name, "--authorization") {
                let value = match fetch_arg(arg_name, args, &mut arg_index) {
                    Ok(v) => v,
                    Err(e) => return Err(e),
                };
                assert(av[i + 1] == value@);
                let spec = match AuthorizationSpec::from_str(value.as_str()) {
                    Ok(spec) => spec,
                    Err(e) => return Err(e),
                };
                let ghost old_specs = authorizations@;
                authorizations.push(spec);
                assert(specs_view(authorizations@) =~= specs_view(old_specs).push(spec@));
            } else if str_equal(arg_name, "--authorizations-file") {
                let filename = match check_fetch_arg(arg_name, &authorizations_file, args, &mut arg_index) {
                    Ok(f) => f,
                    Err(e) => return Err(e),
                };
                assert(av[i + 1] == filename@);
                authorizations_file = Some(filename);
            } else if str_equal(arg_name, "--tls") {
                let (certfile, keyfile) = match check_fetch_two_args(arg_name, &tls, args, &mut arg_index) {
                    Ok(v) => v,
                    Err(e) => return Err(e),
                };
                assert(av[i + 1] == certfile@);
                assert(av[i + 2] == keyfile@);
                tls = Some(TLSOption { certfile, keyfile });
            } else if str_equal(arg_name, "--authentication") {
                let method = match check_fetch_arg(arg_name, &authentication, args, &mut arg_index) {
                    Ok(m) => m,
                    Err(e) => return Err(e),
                };
                assert(av[i + 1] == method@);
                if str_equal(method.as_str(), "none") {
                    authentication = Some(AuthenticationOption::Anonymous);
                } else if str_equal(method.as_str(), "basic") {
                    let filename = match check_fetch_arg(arg_name, &authentication, args, &mut arg_index) {
                        Ok(f) => f,
                        Err(e) => return Err(e),
                    };
                    assert(av[i + 2] == filename@);
                    authentication = Some(AuthenticationOption::Basic(filename));
                } else if str_equal(method.as_str(), "ldap") {
                    let url = match check_fetch_arg(arg_name, &authentication, args, &mut arg_index) {
                        Ok(u) => u,
                        Err(e) => return Err(e),
                    };
                    assert(av[i + 2] == url@);
                    authentication = Some(AuthenticationOption::Ldap(url));
                } else {
                    return Err(String::from_str("invalid authentication option"));
                }
            } else if str_equal(arg_name, "--help") {
                return Err(Self::usage(args[0].as_str()));
            } else {
                let mut message = String::from_str("invalid argument ");
                message.append(arg_name);
                return Err(message);
            }
            arg_index = arg_index + 1;
        }
        let socket_endpoint = match socket_endpoint {
            Some(e) => e,
            None => String::from_str("0.0.0.0:8558"),
        };
        let web_socket_endpoint = match web_socket_endpoint {
            Some(e) => e,
            None => String::from_str("0.0.0.0:8559"),
        };
        let authentication = match authentication {
            Some(a) => a,
            None => AuthenticationOption::Anonymous,
        };
        Ok(Options {
            socket_endpoint,
            web_socket_endpoint,
            authorizations,
            authorizations_file,
            tls,
            authentication,
        })
    }

    /// How to call the broker.
    pub fn usage(prog_name: &str) -> (r: String)
        ensures
            r@ == "usage: "@ + prog_name@ + " [<options>]\n\noptions:\n\t--socket-endpoint <ip-address>:<port> # defaults to 0.0.0.0:8558\n\t--web-socket-endpoint <ip-address>:<port> # defaults to 0.0.0.0:8559\n\t--tls <certfile> <keyfile>\n\t--authentication none # the default\n\t--authentication basic <passwd-file>\n\t--authentication ldap <url>\n\t--authorizations-file <filename>\n\t--authorization <user:topic:entitlements:roles>\n"@,
    {
        let mut r = String::from_str("usage: ");
        r.append(prog_name);
        r.append(" [<options>]\n\noptions:\n\t--socket-endpoint <ip-address>:<port> # defaults to 0.0.0.0:8558\n\t--web-socket-endpoint <ip-address>:<port> # defaults to 0.0.0.0:8559\n\t--tls <certfile> <keyfile>\n\t--authentication none # the default\n\t--authentication basic <passwd-file>\n\t--authentication ldap <url>\n\t--authorizations-file <filename>\n\t--authorization <user:topic:entitlements:roles>\n");
        r
    }
}

/// Moves to the next argument and returns it; fails where there is none.
pub fn fetch_arg(arg_name: &str, args: &Vec<String>, arg_index: &mut usize) -> (r: Result<String, String>)
    requires
        *old(arg_index) < args.len(),
    ensures
        *final(arg_index) == *old(arg_index) + 1,
        r is Ok <==> *final(arg_index) < args.len(),
        r matches Ok(v) ==> v@ == args@[*final(arg_index) as int]@,
{
    *arg_index = *arg_index + 1;
    if *arg_index >= args.len() {
        let mut message = String::from_str("insufficient arguments for ");
        message.append(arg_name);
        return Err(message);
    }
    Ok(args[*arg_index].clone())
}

/// As `fetch_arg`, for an option that may be given once: fails, moving
/// nowhere, where it already has a value.
pub fn check_fetch_arg<T>(
    arg_name: &str,
    current_value: &Option<T>,
    args: &Vec<String>,
    arg_index: &mut usize,
) -> (r: Result<String, String>)
    requires
        *old(arg_index) < args.len(),
    ensures
        current_value is Some ==> r is Err && *final(arg_index) == *old(arg_index),
        current_value is None ==> *final(arg_index) == *old(arg_index) + 1,
        current_value is None ==> (r is Ok <==> *old(arg_index) + 1 < args.len()),
        r matches Ok(v) ==> v@ == args@[*final(arg_index) as int]@,
{
    if current_value.is_some() {
        let mut message = String::from_str("argument given twice: ");
        message.append(arg_name);
        return Err(message);
    }
    fetch_arg(arg_name, args, arg_index)
}

/// As `check_fetch_arg`, for an option with two values.
pub fn check_fetch_two_args<T>(
    arg_name: &str,
    current_value: &Option<T>,
    args: &Vec<String>,
    arg_index: &mut usize,
) -> (r: Result<(String, String), String>)
    requires
        *old(arg_index) < args.len(),
    ensures
        current_value is Some ==> r is Err,
        r is Ok <==> current_value is None && *old(arg_index) + 2 < args.len(),
        r is Ok ==> *final(arg_index) == *old(arg_index) + 2,
        r matches Ok((a, b)) ==> a@ == args@[*old(arg_index) + 1]@ && b@ == args@[*old(arg_index) + 2]@,
{
    if current_value.is_some() {
        let mut message = String::from_str("argument given twice: ");
        message.append(arg_name);
        return Err(message);
    }
    let arg1 = match fetch_arg(arg_name, args, arg_index) {
        Ok(a) => a,
        Err(e) => return Err(e),
    };
    let arg2 = match fetch_arg(arg_name, args, arg_index) {
        Ok(a) => a,
        Err(e) => return Err(e),
    };
    Ok((arg1, arg2))
}

} // verus!
