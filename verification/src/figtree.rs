//! The document builder: consumes the parser's event stream and assembles
//! the `Document` tree, rejecting a node name repeated within one scope.
//! Any lexer- or parser-side error passes through unchanged; no partial
//! document is returned on error.

use vstd::prelude::*;
use crate::position::Position;
use crate::lexer::{Lexer, lex_seq, lex_end_idx, pos_of};
use crate::parser::{
    Parser, ParseEvent, ParseError, ParseResult, ParseContext, PErrV, EventV, PEv, parser_run,
};
use crate::types::{
    Value, ValueV, Dict, Node, NodeV, Document, value_of_scalar, lookup, upsert, lemma_upsert_fresh,
};

verus! {

/// An empty node, as content.
pub open spec fn empty_node_v() -> NodeV {
    NodeV {
        subnodes: Seq::<(Seq<char>, NodeV)>::empty(),
        attrs: Seq::<(Seq<char>, crate::types::ValueV)>::empty(),
    }
}

/// The error reported if the event stream stops short; a well-formed stream
/// never does.
pub open spec fn starved() -> (PErrV, Position) {
    (PErrV::UnexpectedEndOfFile, Position { line: 0, pos: 0 })
}

/// The result of building one value: the value or the terminal error, and
/// the events left over.
pub struct BVal {
    pub out: Result<ValueV, (PErrV, Position)>,
    pub rest: Seq<PEv>,
}

/// The result of building one node: its content or the terminal error, and
/// the events left over.
pub struct BNode {
    pub out: Result<NodeV, (PErrV, Position)>,
    pub rest: Seq<PEv>,
}

/// The result of building the top level: the document's nodes or the
/// terminal error, and the events left over.
pub struct BDoc {
    pub out: Result<Seq<(Seq<char>, NodeV)>, (PErrV, Position)>,
    pub rest: Seq<PEv>,
}

/// Build one value from the head of the event stream: a scalar maps
/// directly; list and dict openings build their container.
pub open spec fn build_value_s(evs: Seq<PEv>) -> BVal
    decreases evs.len(), 0int,
{
    if evs.len() == 0 {
        BVal { out: Err(starved()), rest: evs }
    } else {
        match evs[0].out {
            Err(ep) => BVal { out: Err(ep), rest: evs.skip(1) },
            Ok((ev, p)) => match ev {
                EventV::Value(pv) => BVal { out: Ok(value_of_scalar(pv)), rest: evs.skip(1) },
                EventV::ListStart => build_list_s(evs.skip(1), Seq::<ValueV>::empty()),
                EventV::DictStart => build_dict_s(evs.skip(1), Seq::<(Seq<char>, ValueV)>::empty()),
                _ => BVal { out: Err((PErrV::UnexpectedEndOfFile, p)), rest: evs.skip(1) },
            },
        }
    }
}

/// Build the elements of a list until its closing event.
pub open spec fn build_list_s(evs: Seq<PEv>, acc: Seq<ValueV>) -> BVal
    decreases evs.len(), 1int,
{
    if evs.len() == 0 {
        BVal { out: Err(starved()), rest: evs }
    } else if evs[0].out is Ok && evs[0].out->Ok_0.0 is ListEnd {
        BVal { out: Ok(ValueV::List(acc)), rest: evs.skip(1) }
    } else {
        let v = build_value_s(evs);
        match v.out {
            Err(e) => BVal { out: Err(e), rest: v.rest },
            Ok(val) => if v.rest.len() < evs.len() {
                build_list_s(v.rest, acc.push(val))
            } else {
                BVal { out: Err(starved()), rest: v.rest }
            },
        }
    }
}

/// Build the entries of a dict until its closing event; a repeated key
/// overwrites in place.
pub open spec fn build_dict_s(evs: Seq<PEv>, acc: Seq<(Seq<char>, ValueV)>) -> BVal
    decreases evs.len(), 1int,
{
    if evs.len() == 0 {
        BVal { out: Err(starved()), rest: evs }
    } else {
        match evs[0].out {
            Err(ep) => BVal { out: Err(ep), rest: evs.skip(1) },
            Ok((ev, p)) => match ev {
                EventV::DictEnd => BVal { out: Ok(ValueV::Dict(acc)), rest: evs.skip(1) },
                EventV::Key(k) => {
                    let v = build_value_s(evs.skip(1));
                    match v.out {
                        Err(e) => BVal { out: Err(e), rest: v.rest },
                        Ok(val) => if v.rest.len() < evs.len() {
                            build_dict_s(v.rest, upsert(acc, k, val))
                        } else {
                            BVal { out: Err(starved()), rest: v.rest }
                        },
                    }
                },
                _ => BVal { out: Err((PErrV::UnexpectedEndOfFile, p)), rest: evs.skip(1) },
            },
        }
    }
}

/// Build the inside of a node until its closing event: subnodes recurse and
/// must be fresh by name; keys take one value each, overwriting in place.
pub open spec fn build_node_s(evs: Seq<PEv>, acc: NodeV) -> BNode
    decreases evs.len(), 2int,
{
    if evs.len() == 0 {
        BNode { out: Err(starved()), rest: evs }
    } else {
        match evs[0].out {
            Err(ep) => BNode { out: Err(ep), rest: evs.skip(1) },
            Ok((ev, p)) => match ev {
                EventV::NodeEnd => BNode { out: Ok(acc), rest: evs.skip(1) },
                EventV::NodeStart(name) => {
                    if lookup(acc.subnodes, name) is Some {
                        BNode {
                            out: Err((PErrV::RepeatedNode(name), evs[0].lexpos)),
                            rest: evs.skip(1),
                        }
                    } else {
                        let sub = build_node_s(evs.skip(1), empty_node_v());
                        match sub.out {
                            Err(e) => BNode { out: Err(e), rest: sub.rest },
                            Ok(nv) => if sub.rest.len() < evs.len() {
                                build_node_s(
                                    sub.rest,
                                    NodeV {
                                        subnodes: acc.subnodes.push((name, nv)),
                                        attrs: acc.attrs,
                                    },
                                )
                            } else {
                                BNode { out: Err(starved()), rest: sub.rest }
                            },
                        }
                    }
                },
                EventV::Key(k) => {
                    let v = build_value_s(evs.skip(1));
                    match v.out {
                        Err(e) => BNode { out: Err(e), rest: v.rest },
                        Ok(val) => if v.rest.len() < evs.len() {
                            build_node_s(
                                v.rest,
                                NodeV { subnodes: acc.subnodes, attrs: upsert(acc.attrs, k, val) },
                            )
                        } else {
                            BNode { out: Err(starved()), rest: v.rest }
                        },
                    }
                },
                _ => BNode { out: Err((PErrV::UnexpectedEndOfFile, p)), rest: evs.skip(1) },
            },
        }
    }
}

/// Build the top level of a document until the file's closing event: nodes
/// recurse and must be fresh by name.
pub open spec fn build_file_s(evs: Seq<PEv>, acc: Seq<(Seq<char>, NodeV)>) -> BDoc
    decreases evs.len(), 2int,
{
    if evs.len() == 0 {
        BDoc { out: Err(starved()), rest: evs }
    } else {
        match evs[0].out {
            Err(ep) => BDoc { out: Err(ep), rest: evs.skip(1) },
            Ok((ev, p)) => match ev {
                EventV::FileEnd => BDoc { out: Ok(acc), rest: evs.skip(1) },
                EventV::NodeStart(name) => {
                    if lookup(acc, name) is Some {
                        BDoc {
                            out: Err((PErrV::RepeatedNode(name), evs[0].lexpos)),
                            rest: evs.skip(1),
                        }
                    } else {
                        let sub = build_node_s(evs.skip(1), empty_node_v());
                        match sub.out {
                            Err(e) => BDoc { out: Err(e), rest: sub.rest },
                            Ok(nv) => if sub.rest.len() < evs.len() {
                                build_file_s(sub.rest, acc.push((name, nv)))
                            } else {
                                BDoc { out: Err(starved()), rest: sub.rest }
                            },
                        }
                    }
                },
                _ => BDoc { out: Err((PErrV::UnexpectedEndOfFile, p)), rest: evs.skip(1) },
            },
        }
    }
}

/// Build a whole document from an event stream: a file-start event, the top
/// level, and nothing after the file's end.
pub open spec fn build_doc_s(evs: Seq<PEv>) -> Result<Seq<(Seq<char>, NodeV)>, (PErrV, Position)> {
    if evs.len() == 0 {
        Err(starved())
    } else {
        match evs[0].out {
            Err(ep) => Err(ep),
            Ok((ev, p)) => match ev {
                EventV::FileStart => build_file_s(evs.skip(1), Seq::empty()).out,
                _ => Err((PErrV::UnexpectedEndOfFile, p)),
            },
        }
    }
}

/// What parsing an input yields: the document's nodes, or the first error
/// with its position.
pub open spec fn doc_of(s: Seq<char>) -> Result<Seq<(Seq<char>, NodeV)>, (PErrV, Position)> {
    build_doc_s(
        parser_run(
            Seq::<ParseContext>::empty(),
            lex_seq(s, 0),
            pos_of(s.take(lex_end_idx(s, 0))),
            Position { line: 0, pos: 0 },
            Position { line: 0, pos: 0 },
        ),
    )
}

/// Parsing is deterministic and total: the same characters always build the
/// same document or report the same error, and `doc_of` is defined on every
/// input.
pub proof fn lemma_parse_deterministic(s1: Seq<char>, s2: Seq<char>)
    requires
        s1 == s2,
    ensures
        doc_of(s1) == doc_of(s2),
{
}

/// A node name repeated within one scope is always rejected: whenever the
/// builder meets a node opening whose name the scope already holds, it stops
/// with that name's repeated-node error at the position the lexer had
/// reached, however deep the scope lies.
pub proof fn lemma_repeated_subnode_rejected(evs: Seq<PEv>, acc: NodeV, name: Seq<char>)
    requires
        evs.len() > 0,
        evs[0].out is Ok,
        evs[0].out->Ok_0.0 == EventV::NodeStart(name),
        lookup(acc.subnodes, name) is Some,
    ensures
        build_node_s(evs, acc).out == Err::<NodeV, (PErrV, Position)>(
            (PErrV::RepeatedNode(name), evs[0].lexpos),
        ),
{
}

/// The same rejection holds for the top level of the document.
pub proof fn lemma_repeated_node_rejected(evs: Seq<PEv>, acc: Seq<(Seq<char>, NodeV)>, name: Seq<
    char,
>)
    requires
        evs.len() > 0,
        evs[0].out is Ok,
        evs[0].out->Ok_0.0 == EventV::NodeStart(name),
        lookup(acc, name) is Some,
    ensures
        build_file_s(evs, acc).out == Err::<Seq<(Seq<char>, NodeV)>, (PErrV, Position)>(
            (PErrV::RepeatedNode(name), evs[0].lexpos),
        ),
{
}

/// Parses figtree text into a `Document`: wraps the lexer-parser pipeline
/// and drives it to completion.
pub struct Figtree {
    pub parser: Parser,
}

impl Figtree {
    /// Make a parser over the given text.  Nothing is read until `parse` is
    /// called.
    pub fn from_string(input: &str) -> (r: Figtree)
        ensures
            r.parser.wf(),
            !r.parser.ended,
            build_doc_s(r.parser.run()) == doc_of(input@),
    {
        let lexer = Lexer::lex(input);
        let parser = Parser::parse(lexer);
        let fig = Figtree { parser: parser };
        proof {
            assert(fig.parser.context@ =~= Seq::<ParseContext>::empty());
            assert(fig.parser.tsp() == (Position { line: 0, pos: 0 }));
            assert(fig.parser.curp() == (Position { line: 0, pos: 0 }));
        }
        fig
    }

    /// Run the whole pipeline: the parsed document, or the first error with
    /// the position where it was found.
    pub fn parse(&mut self) -> (r: Result<Document, (ParseError, Position)>)
        requires
            old(self).parser.wf(),
        ensures
            final(self).parser.wf(),
            ({
                let b = build_doc_s(old(self).parser.run());
                match (r, b) {
                    (Ok(d), Ok(ns)) => d@ == ns,
                    (Err((e, p)), Err(pair)) => e@ == pair.0 && p == pair.1,
                    _ => false,
                }
            }),
    {
        match self.parser.next() {
            Some(Ok((ParseEvent::FileStart, _p))) => self.parse_file(),
            Some(Ok((_ev, p))) => Err((ParseError::UnexpectedEndOfFile, p)),
            Some(Err((e, p))) => Err((e, p)),
            None => Err((ParseError::UnexpectedEndOfFile, Position::at(0, 0))),
        }
    }

    /// Read top-level nodes until the file ends, rejecting repeated names.
    fn parse_file(&mut self) -> (r: Result<Document, (ParseError, Position)>)
        requires
            old(self).parser.wf(),
        ensures
            final(self).parser.wf(),
            ({
                let b = build_file_s(old(self).parser.run(), Seq::<(Seq<char>, NodeV)>::empty());
                match (r, b.out) {
                    (Ok(d), Ok(ns)) => d@ == ns,
                    (Err((e, p)), Err(pair)) => e@ == pair.0 && p == pair.1,
                    _ => false,
                }
            }),
        decreases old(self).parser.run().len(), 4int,
    {
        let ghost run0 = self.parser.run();
        let mut doc = Document::new();
        loop
            invariant
                self.parser.wf(),
                run0 == old(self).parser.run(),
                build_file_s(self.parser.run(), doc@) == build_file_s(
                    run0,
                    Seq::<(Seq<char>, NodeV)>::empty(),
                ),
                self.parser.run().len() <= run0.len(),
            decreases self.parser.run().len(),
        {
            let ghost evs = self.parser.run();
            match self.parser.next() {
                Some(Ok((ParseEvent::FileEnd, _p))) => {
                    return Ok(doc);
                },
                Some(Ok((ParseEvent::NodeStart(name), _p))) => {
                    if doc.has_node(name.as_str()) {
                        let lp = self.parser.lex_position();
                        return Err((ParseError::RepeatedNode(name), lp));
                    }
                    proof {
                        assert(evs.drop_first() =~= evs.skip(1));
                    }
                    match self.parse_node() {
                        Ok(node) => {
                            proof {
                                lemma_upsert_fresh(doc@, name@, node@);
                            }
                            let _ = doc.insert_node(name.as_str(), node);
                        },
                        Err(ep) => {
                            return Err(ep);
                        },
                    }
                },
                Some(Ok((_ev, p))) => {
                    return Err((ParseError::UnexpectedEndOfFile, p));
                },
                Some(Err((e, p))) => {
                    return Err((e, p));
                },
                None => {
                    return Err((ParseError::UnexpectedEndOfFile, Position::at(0, 0)));
                },
            }
        }
    }

    /// Read the inside of one node whose opening event was just consumed.
    fn parse_node(&mut self) -> (r: Result<Node, (ParseError, Position)>)
        requires
            old(self).parser.wf(),
        ensures
            final(self).parser.wf(),
            ({
                let b = build_node_s(old(self).parser.run(), empty_node_v());
                &&& (match (r, b.out) {
                    (Ok(n), Ok(nv)) => n@ == nv,
                    (Err((e, p)), Err(pair)) => e@ == pair.0 && p == pair.1,
                    _ => false,
                })
                &&& final(self).parser.run() == b.rest
                &&& (old(self).parser.run().len() > 0 ==> final(self).parser.run().len() < old(
                    self,
                ).parser.run().len())
            }),
        decreases old(self).parser.run().len(), 3int,
    {
        let ghost run0 = self.parser.run();
        let mut node = Node::new();
        proof {
            assert(node@ == empty_node_v());
        }
        loop
            invariant
                self.parser.wf(),
                run0 == old(self).parser.run(),
                build_node_s(self.parser.run(), node@) == build_node_s(run0, empty_node_v()),
                build_node_s(run0, empty_node_v()).rest == build_node_s(
                    self.parser.run(),
                    node@,
                ).rest,
                self.parser.run().len() <= run0.len(),
            decreases self.parser.run().len(),
        {
            let ghost evs = self.parser.run();
            match self.parser.next() {
                Some(Ok((ParseEvent::NodeEnd, _p))) => {
                    return Ok(node);
                },
                Some(Ok((ParseEvent::NodeStart(name), _p))) => {
                    if node.has_node(name.as_str()) {
                        let lp = self.parser.lex_position();
                        return Err((ParseError::RepeatedNode(name), lp));
                    }
                    proof {
                        assert(evs.drop_first() =~= evs.skip(1));
                    }
                    match self.parse_node() {
                        Ok(sub) => {
                            proof {
                                lemma_upsert_fresh(node@.subnodes, name@, sub@);
                            }
                            let _ = node.insert_node(name.as_str(), sub);
                        },
                        Err(ep) => {
                            return Err(ep);
                        },
                    }
                },
                Some(Ok((ParseEvent::Key(key), _p))) => {
                    proof {
                        assert(evs.drop_first() =~= evs.skip(1));
                    }
                    match self.parse_value() {
                        Ok(value) => {
                            let _ = node.insert_attr(key.as_str(), value);
                        },
                        Err(ep) => {
                            return Err(ep);
                        },
                    }
                },
                Some(Ok((_ev, p))) => {
                    return Err((ParseError::UnexpectedEndOfFile, p));
                },
                Some(Err((e, p))) => {
                    return Err((e, p));
                },
                None => {
                    return Err((ParseError::UnexpectedEndOfFile, Position::at(0, 0)));
                },
            }
        }
    }

    /// Read exactly one value.
    fn parse_value(&mut self) -> (r: Result<Value, (ParseError, Position)>)
        requires
            old(self).parser.wf(),
        ensures
            final(self).parser.wf(),
            ({
                let b = build_value_s(old(self).parser.run());
                &&& (match (r, b.out) {
                    (Ok(v), Ok(vv)) => v@ == vv,
                    (Err((e, p)), Err(pair)) => e@ == pair.0 && p == pair.1,
                    _ => false,
                })
                &&& final(self).parser.run() == b.rest
                &&& (old(self).parser.run().len() > 0 ==> final(self).parser.run().len() < old(
                    self,
                ).parser.run().len())
            }),
        decreases old(self).parser.run().len(), 2int,
    {
        let ghost evs = self.parser.run();
        let ev = self.parser.next();
        self.parse_value_ev(ev, Ghost(evs))
    }

    /// Read the rest of one value whose first event was already pulled.
    fn parse_value_ev(&mut self, ev: Option<ParseResult>, Ghost(evs): Ghost<Seq<PEv>>) -> (r:
        Result<Value, (ParseError, Position)>)
        requires
            old(self).parser.wf(),
            evs.len() == 0 ==> ev is None && old(self).parser.run() == evs,
            evs.len() > 0 ==> old(self).parser.run() == evs.drop_first() && (match (
                ev,
                evs[0].out,
            ) {
                (Some(Ok((e, p))), Ok(pair)) => e@ == pair.0 && p == pair.1,
                (Some(Err((e, p))), Err(pair)) => e@ == pair.0 && p == pair.1,
                _ => false,
            }),
        ensures
            final(self).parser.wf(),
            ({
                let b = build_value_s(evs);
                &&& (match (r, b.out) {
                    (Ok(v), Ok(vv)) => v@ == vv,
                    (Err((e, p)), Err(pair)) => e@ == pair.0 && p == pair.1,
                    _ => false,
                })
                &&& final(self).parser.run() == b.rest
                &&& (evs.len() > 0 ==> final(self).parser.run().len() < evs.len())
            }),
        decreases evs.len(), 0int,
    {
        proof {
            if evs.len() > 0 {
                assert(evs.drop_first() =~= evs.skip(1));
            }
        }
        match ev {
            None => Err((ParseError::UnexpectedEndOfFile, Position::at(0, 0))),
            Some(Err((e, p))) => Err((e, p)),
            Some(Ok((ParseEvent::Value(pv), _p))) => Ok(Value::from_parsed_value(pv)),
            Some(Ok((ParseEvent::ListStart, _p))) => self.parse_list(),
            Some(Ok((ParseEvent::DictStart, _p))) => self.parse_dict(),
            Some(Ok((_ev, p))) => Err((ParseError::UnexpectedEndOfFile, p)),
        }
    }

    /// Read list elements until the list closes.
    fn parse_list(&mut self) -> (r: Result<Value, (ParseError, Position)>)
        requires
            old(self).parser.wf(),
        ensures
            final(self).parser.wf(),
            ({
                let b = build_list_s(old(self).parser.run(), Seq::<ValueV>::empty());
                &&& (match (r, b.out) {
                    (Ok(v), Ok(vv)) => v@ == vv,
                    (Err((e, p)), Err(pair)) => e@ == pair.0 && p == pair.1,
                    _ => false,
                })
                &&& final(self).parser.run() == b.rest
                &&& final(self).parser.run().len() < old(self).parser.run().len() || old(
                    self,
                ).parser.run().len() == 0
            }),
        decreases old(self).parser.run().len(), 1int,
    {
        let ghost run0 = self.parser.run();
        let mut list: Vec<Value> = Vec::new();
        proof {
            assert(crate::types::list_v(list@) =~= Seq::<ValueV>::empty());
        }
        loop
            invariant
                self.parser.wf(),
                run0 == old(self).parser.run(),
                build_list_s(self.parser.run(), crate::types::list_v(list@)) == build_list_s(
                    run0,
                    Seq::<ValueV>::empty(),
                ),
                self.parser.run().len() <= run0.len(),
            decreases self.parser.run().len(),
        {
            let ghost evs = self.parser.run();
            let ev = self.parser.next();
            let is_end = match &ev {
                Some(Ok((ParseEvent::ListEnd, _p))) => true,
                _ => false,
            };
            if is_end {
                return Ok(Value::List(list));
            }
            match self.parse_value_ev(ev, Ghost(evs)) {
                Ok(v) => {
                    let ghost lv = crate::types::list_v(list@);
                    proof {
                        crate::types::lemma_list_v(list@);
                    }
                    list.push(v);
                    proof {
                        crate::types::lemma_list_v(list@);
                        assert(crate::types::list_v(list@) =~= lv.push(v@));
                    }
                },
                Err(ep) => {
                    return Err(ep);
                },
            }
        }
    }

    /// Read dict entries until the dict closes.
    fn parse_dict(&mut self) -> (r: Result<Value, (ParseError, Position)>)
        requires
            old(self).parser.wf(),
        ensures
            final(self).parser.wf(),
            ({
                let b = build_dict_s(old(self).parser.run(), Seq::<(Seq<char>, ValueV)>::empty());
                &&& (match (r, b.out) {
                    (Ok(v), Ok(vv)) => v@ == vv,
                    (Err((e, p)), Err(pair)) => e@ == pair.0 && p == pair.1,
                    _ => false,
                })
                &&& final(self).parser.run() == b.rest
                &&& final(self).parser.run().len() < old(self).parser.run().len() || old(
                    self,
                ).parser.run().len() == 0
            }),
        decreases old(self).parser.run().len(), 1int,
    {
        let ghost run0 = self.parser.run();
        let mut dict = Dict::new();
        loop
            invariant
                self.parser.wf(),
                run0 == old(self).parser.run(),
                build_dict_s(self.parser.run(), dict@) == build_dict_s(
                    run0,
                    Seq::<(Seq<char>, ValueV)>::empty(),
                ),
                self.parser.run().len() <= run0.len(),
            decreases self.parser.run().len(),
        {
            let ghost evs = self.parser.run();
            match self.parser.next() {
                Some(Ok((ParseEvent::DictEnd, _p))) => {
                    return Ok(Value::Dict(dict));
                },
                Some(Ok((ParseEvent::Key(key), _p))) => {
                    proof {
                        assert(evs.drop_first() =~= evs.skip(1));
                    }
                    match self.parse_value() {
                        Ok(v) => {
                            let _ = dict.insert(key, v);
                        },
                        Err(ep) => {
                            return Err(ep);
                        },
                    }
                },
                Some(Ok((_ev, p))) => {
                    return Err((ParseError::UnexpectedEndOfFile, p));
                },
                Some(Err((e, p))) => {
                    return Err((e, p));
                },
                None => {
                    return Err((ParseError::UnexpectedEndOfFile, Position::at(0, 0)));
                },
            }
        }
    }
}

} // verus!