//! The router: one route table for each verb, and the handler for what no
//! route matches.

use crate::err::Error;
use crate::request::{lemma_path_is_text, Method, Request, RequestUri, RequestView};
use crate::tree::node::found_of;
use crate::tree::pattern::compile;
use crate::tree::root::Root;
use crate::tree::trie::{inserted, lemma_lookup_yields_text, lookup, Found, Trie};
use vstd::prelude::*;
use vstd::string::StringSliceAdditionalSpecFns;

verus! {

/// The routes of a table that may not have been made yet.
pub open spec fn table_of<H>(slot: Option<Root<H>>) -> Option<Seq<Trie<H>>> {
    match slot {
        Some(root) => Some(root@),
        None => None,
    }
}

/// The routes of a table; one that has not been made yet has none.
pub open spec fn routes_of<H>(table: Option<Seq<Trie<H>>>) -> Seq<Trie<H>> {
    match table {
        Some(tries) => tries,
        None => Seq::empty(),
    }
}

/// Which handler takes a request, and what the route captured of its path.
/// Without a table for the verb, and where no route of the table matches,
/// it is the handler `fallback`, with nothing captured. `None` stands for
/// a target of which a table cannot take a path.
pub open spec fn decision<H>(table: Option<Seq<Trie<H>>>, fallback: H, uri: RequestUri) -> Option<
    Found<H>,
> {
    match table {
        None => Some(Found { target: fallback, spans: None }),
        Some(tries) => {
            if uri.has_path() {
                match lookup(tries, uri.path_bytes()) {
                    Some(found) => Some(found),
                    None => Some(Found { target: fallback, spans: None }),
                }
            } else {
                None
            }
        },
    }
}

/// A finished router.
#[derive(Debug)]
pub struct Router<H> {
    get_tree: Option<Root<H>>,
    post_tree: Option<Root<H>>,
    put_tree: Option<Root<H>>,
    patch_tree: Option<Root<H>>,
    delete_tree: Option<Root<H>>,
    head_tree: Option<Root<H>>,
    not_found: H,
}

/// A router that is being put together.
#[derive(Debug)]
pub struct RouterBuilder<H> {
    get_tree: Option<Root<H>>,
    post_tree: Option<Root<H>>,
    put_tree: Option<Root<H>>,
    patch_tree: Option<Root<H>>,
    delete_tree: Option<Root<H>>,
    head_tree: Option<Root<H>>,
    not_found: Option<H>,
}

/// The table with one more pattern; it is made if it was not there.
fn grown<H>(slot: Option<Root<H>>, re: &str, handler: H) -> (out: Option<Root<H>>)
    ensures
        table_of(out) == Some(inserted(routes_of(table_of(slot)), compile(re@), handler)),
{
    let mut root = match slot {
        Some(root) => root,
        None => Root::new(),
    };
    root.insert(re, handler);
    Some(root)
}

impl<H> Router<H> {
    /// The routes of a verb, if a pattern was ever added for it.
    pub closed spec fn table(&self, method: Method) -> Option<Seq<Trie<H>>> {
        match method {
            Method::Get => table_of(self.get_tree),
            Method::Post => table_of(self.post_tree),
            Method::Put => table_of(self.put_tree),
            Method::Patch => table_of(self.patch_tree),
            Method::Delete => table_of(self.delete_tree),
            Method::Head => table_of(self.head_tree),
            Method::Other => None,
        }
    }

    /// The handler for what no route matches.
    pub closed spec fn fallback(&self) -> H {
        self.not_found
    }

    /// Starts a router: no tables, no handler.
    pub fn build() -> (builder: RouterBuilder<H>)
        ensures
            forall|method: Method| builder.table(method) is None,
            builder.fallback() is None,
    {
        RouterBuilder::default()
    }

    /// The table of a verb.
    fn tree(&self, method: Method) -> (slot: &Option<Root<H>>)
        ensures
            table_of(*slot) == self.table(method),
    {
        match method {
            Method::Get => &self.get_tree,
            Method::Post => &self.post_tree,
            Method::Put => &self.put_tree,
            Method::Patch => &self.patch_tree,
            Method::Delete => &self.delete_tree,
            Method::Head => &self.head_tree,
            Method::Other => &None,
        }
    }

    /// Decides which handler takes the request, and hands the request back
    /// with what the route captured of its path. It fails where the verb
    /// has a table but the target of the request has no path.
    pub fn handle<'a>(&'a self, req: Request) -> (out: Result<(&'a H, Request), Error>)
        ensures
            match out {
                Ok((handler, request)) => {
                    &&& decision(self.table(req@.method), self.fallback(), req@.uri) == Some(
                        Found { target: *handler, spans: request@.spans },
                    )
                    &&& request@.method == req@.method
                    &&& request@.uri == req@.uri
                },
                Err(error) => {
                    &&& decision(self.table(req@.method), self.fallback(), req@.uri) is None
                    &&& error == Error::UnexpectedUri
                },
            },
    {
        match self.tree(req.method()) {
            Some(root) => {
                let known = match req.uri() {
                    RequestUri::AbsolutePath(_) => true,
                    RequestUri::AbsoluteUri { .. } => true,
                    _ => false,
                };
                if !known {
                    return Err(Error::UnexpectedUri);
                }
                let found = root.check(req.path());
                proof {
                    lemma_path_is_text(req@.uri);
                    lemma_lookup_yields_text(root@, req@.uri.path_bytes());
                }
                match found {
                    Some((handler, capture_delims)) => {
                        let request = req.with_captures(capture_delims);
                        Ok((handler, request))
                    },
                    None => {
                        let request = req.with_captures(None);
                        Ok((&self.not_found, request))
                    },
                }
            },
            None => {
                let request = req.without_captures();
                Ok((&self.not_found, request))
            },
        }
    }
}

impl<H> Default for RouterBuilder<H> {
    fn default() -> (builder: Self)
        ensures
            forall|method: Method| builder.table(method) is None,
            builder.fallback() is None,
    {
        RouterBuilder {
            get_tree: None,
            post_tree: None,
            put_tree: None,
            patch_tree: None,
            delete_tree: None,
            head_tree: None,
            not_found: None,
        }
    }
}

impl<H> RouterBuilder<H> {
    /// The routes of a verb, if a pattern was ever added for it.
    pub closed spec fn table(&self, method: Method) -> Option<Seq<Trie<H>>> {
        match method {
            Method::Get => table_of(self.get_tree),
            Method::Post => table_of(self.post_tree),
            Method::Put => table_of(self.put_tree),
            Method::Patch => table_of(self.patch_tree),
            Method::Delete => table_of(self.delete_tree),
            Method::Head => table_of(self.head_tree),
            Method::Other => None,
        }
    }

    /// The handler for what no route matches, if it was set.
    pub closed spec fn fallback(&self) -> Option<H> {
        self.not_found
    }

    /// What adding a pattern for `method` makes of the builder `before`:
    /// the pattern is compiled and inserted into the table of the verb, and
    /// nothing else changes.
    pub open spec fn added(&self, before: &Self, method: Method, re: Seq<char>, handler: H) -> bool {
        &&& self.table(method) == Some(
            inserted(routes_of(before.table(method)), compile(re), handler),
        )
        &&& forall|other: Method| other != method ==> self.table(other) == before.table(other)
        &&& self.fallback() == before.fallback()
    }

    /// Adds a route for GET.
    pub fn add_get(self, re: &str, handler: H) -> (out: Self)
        ensures
            out.added(&self, Method::Get, re@, handler),
    {
        RouterBuilder {
            get_tree: grown(self.get_tree, re, handler),
            post_tree: self.post_tree,
            put_tree: self.put_tree,
            patch_tree: self.patch_tree,
            delete_tree: self.delete_tree,
            head_tree: self.head_tree,
            not_found: self.not_found,
        }
    }

    /// Adds a route for POST.
    pub fn add_post(self, re: &str, handler: H) -> (out: Self)
        ensures
            out.added(&self, Method::Post, re@, handler),
    {
        RouterBuilder {
            get_tree: self.get_tree,
            post_tree: grown(self.post_tree, re, handler),
            put_tree: self.put_tree,
            patch_tree: self.patch_tree,
            delete_tree: self.delete_tree,
            head_tree: self.head_tree,
            not_found: self.not_found,
        }
    }

    /// Adds a route for PUT.
    pub fn add_put(self, re: &str, handler: H) -> (out: Self)
        ensures
            out.added(&self, Method::Put, re@, handler),
    {
        RouterBuilder {
            get_tree: self.get_tree,
            post_tree: self.post_tree,
            put_tree: grown(self.put_tree, re, handler),
            patch_tree: self.patch_tree,
            delete_tree: self.delete_tree,
            head_tree: self.head_tree,
            not_found: self.not_found,
        }
    }

    /// Adds a route for PATCH.
    pub fn add_patch(self, re: &str, handler: H) -> (out: Self)
        ensures
            out.added(&self, Method::Patch, re@, handler),
    {
        RouterBuilder {
            get_tree: self.get_tree,
            post_tree: self.post_tree,
            put_tree: self.put_tree,
            patch_tree: grown(self.patch_tree, re, handler),
            delete_tree: self.delete_tree,
            head_tree: self.head_tree,
            not_found: self.not_found,
        }
    }

    /// Adds a route for DELETE.
    pub fn add_delete(self, re: &str, handler: H) -> (out: Self)
        ensures
            out.added(&self, Method::Delete, re@, handler),
    {
        RouterBuilder {
            get_tree: self.get_tree,
            post_tree: self.post_tree,
            put_tree: self.put_tree,
            patch_tree: self.patch_tree,
            delete_tree: grown(self.delete_tree, re, handler),
            head_tree: self.head_tree,
            not_found: self.not_found,
        }
    }

    /// Adds a route for HEAD.
    pub fn add_head(self, re: &str, handler: H) -> (out: Self)
        ensures
            out.added(&self, Method::Head, re@, handler),
    {
        RouterBuilder {
            get_tree: self.get_tree,
            post_tree: self.post_tree,
            put_tree: self.put_tree,
            patch_tree: self.patch_tree,
            delete_tree: self.delete_tree,
            head_tree: grown(self.head_tree, re, handler),
            not_found: self.not_found,
        }
    }

    /// Sets the handler for what no route matches.
    pub fn not_found(self, handler: H) -> (out: Self)
        ensures
            out.fallback() == Some(handler),
            forall|method: Method| out.table(method) == self.table(method),
    {
        RouterBuilder {
            get_tree: self.get_tree,
            post_tree: self.post_tree,
            put_tree: self.put_tree,
            patch_tree: self.patch_tree,
            delete_tree: self.delete_tree,
            head_tree: self.head_tree,
            not_found: Some(handler),
        }
    }

    /// Finishes the router. It fails if no handler was set for what no
    /// route matches.
    pub fn finish(self) -> (out: Result<Router<H>, Error>)
        ensures
            match out {
                Ok(router) => {
                    &&& self.fallback() == Some(router.fallback())
                    &&& forall|method: Method| router.table(method) == self.table(method)
                },
                Err(error) => self.fallback() is None && error == Error::MissingNotFound,
            },
    {
        match self.not_found {
            Some(handler) => Ok(
                Router {
                    get_tree: self.get_tree,
                    post_tree: self.post_tree,
                    put_tree: self.put_tree,
                    patch_tree: self.patch_tree,
                    delete_tree: self.delete_tree,
                    head_tree: self.head_tree,
                    not_found: handler,
                },
            ),
            None => Err(Error::MissingNotFound),
        }
    }
}

} // verus!
