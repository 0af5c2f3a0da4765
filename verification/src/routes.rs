//! The route table a server dispatches from: each route names the resource
//! it serves. The listening socket itself is I/O and stays with the caller.
use vstd::prelude::*;

use crate::error::RouteAlreadyRegistered;
use crate::http::lookup;
use crate::http::lookup_exec;

verus! {

/// Maps a route to the name of the resource it serves, in insertion order,
/// each route registered at most once.
pub struct RouteTable {
    routes: Vec<(String, String)>,
}

impl View for RouteTable {
    type V = Seq<(Seq<char>, Seq<char>)>;

    closed spec fn view(&self) -> Seq<(Seq<char>, Seq<char>)> {
        self.routes.deep_view()
    }
}

impl RouteTable {
    /// A fresh table, with the root route serving the index page.
    pub fn new() -> (r: Self)
        ensures
            r@ == seq![("/"@, "index.html"@)],
    {
        let mut routes: Vec<(String, String)> = Vec::new();
        routes.push(("/".to_owned(), "index.html".to_owned()));
        let r = RouteTable { routes };
        proof {
            assert(r@ =~= seq![("/"@, "index.html"@)]);
        }
        r
    }

    /// Register `route` to serve `resource`; refused when `route` is taken.
    pub fn register_route(&mut self, route: String, resource: String) -> (r: Result<
        (),
        RouteAlreadyRegistered,
    >)
        ensures
            match r {
                Ok(_) => lookup(old(self)@, route@) is None && final(self)@ == old(self)@.push(
                    (route@, resource@),
                ),
                Err(_) => lookup(old(self)@, route@) is Some && final(self)@ == old(self)@,
            },
    {
        let taken = match lookup_exec(&self.routes, route.as_str()) {
            Some(_) => true,
            None => false,
        };
        if !taken {
            let ghost before = self@;
            let ghost rv = route@;
            let ghost sv = resource@;
            self.routes.push((route, resource));
            proof {
                assert(self@ =~= before.push((rv, sv)));
            }
            return Ok(());
        }
        Err(RouteAlreadyRegistered)
    }

    /// The resource registered under `route`, if any.
    pub fn get<'a>(&'a self, route: &str) -> (r: Option<&'a String>)
        ensures
            match r {
                Some(v) => lookup(self@, route@) == Some(v@),
                None => lookup(self@, route@) is None,
            },
    {
        lookup_exec(&self.routes, route)
    }
}

} // verus!
