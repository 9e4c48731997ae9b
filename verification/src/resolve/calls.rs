//! Collects the paths that a function body calls.

use vstd::prelude::*;
use crate::syntax::{call_path_segments, callee_segments, method_call_name, method_name, string_views};

verus! {

/// The calls seen so far, each as the path it calls through: the segments
/// of a path call, or the bare method name of a method call.
pub struct CallVisitor {
    pub calls: Vec<Vec<String>>,
}

impl CallVisitor {
    /// A visitor that has seen no call.
    pub fn new() -> (v: Self)
        ensures
            v.calls@.len() == 0,
    {
        CallVisitor { calls: Vec::new() }
    }

    /// Records a call whose callee is a path with these segments; a call
    /// through anything other than a path (`None`) is not recorded.
    pub fn record_path_call(&mut self, segments: Option<Vec<String>>)
        ensures
            final(self).calls@ == match segments {
                Some(p) => old(self).calls@.push(p),
                None => old(self).calls@,
            },
    {
        match segments {
            Some(p) => self.calls.push(p),
            None => {},
        }
    }

    /// Records a method call as the one-segment path of its method name.
    pub fn record_method_call(&mut self, method: String)
        ensures
            final(self).calls@.len() == old(self).calls@.len() + 1,
            final(self).calls@.take(old(self).calls@.len() as int) == old(self).calls@,
            final(self).calls@.last()@.len() == 1,
            final(self).calls@.last()@[0] == method,
    {
        let mut path: Vec<String> = Vec::new();
        path.push(method);
        self.calls.push(path);
        assert(self.calls@.take(old(self).calls@.len() as int) =~= old(self).calls@);
    }

    /// Records a call expression: its callee's path segments when the callee
    /// is a path; any other call is not recorded.
    pub fn visit_expr_call(&mut self, node: &syn::ExprCall)
        ensures
            match callee_segments(*node) {
                Some(p) => {
                    &&& final(self).calls@.len() == old(self).calls@.len() + 1
                    &&& final(self).calls@.drop_last() == old(self).calls@
                    &&& string_views(final(self).calls@.last()@) == p
                },
                None => final(self).calls@ == old(self).calls@,
            },
    {
        let segments = call_path_segments(node);
        self.record_path_call(segments);
        assert(self.calls@ == old(self).calls@ || self.calls@.drop_last() =~= old(self).calls@);
    }

    /// Records a method call as the one-segment path of its method name.
    pub fn visit_expr_method_call(&mut self, node: &syn::ExprMethodCall)
        ensures
            final(self).calls@.len() == old(self).calls@.len() + 1,
            final(self).calls@.take(old(self).calls@.len() as int) == old(self).calls@,
            final(self).calls@.last()@.len() == 1,
            final(self).calls@.last()@[0]@ == method_name(*node),
    {
        let method = method_call_name(node);
        self.record_method_call(method);
    }
}

} // verus!
