//! The flat netlist the timer reads: instances of library cells, top-level ports, and nets with
//! their pins in the network's order.

use vstd::prelude::*;
use vstd::string::StringExecFns;

verus! {

/// A top-level port's direction.
#[derive(Debug, Clone, Copy, PartialEq, Eq, Structural)]
pub enum PortDir {
    Input,
    Output,
    Inout,
}

/// One pin on a net: an instance's terminal, or a top-level port.
#[derive(Debug, PartialEq, Eq)]
pub enum Conn {
    Inst(usize, String),
    Port(usize),
}

/// What a pin is.
#[verifier::ext_equal]
pub enum ConnView {
    Inst(int, Seq<char>),
    Port(int),
}

impl View for Conn {
    type V = ConnView;

    open spec fn view(&self) -> ConnView {
        match self {
            Conn::Inst(i, p) => ConnView::Inst(*i as int, p@),
            Conn::Port(i) => ConnView::Port(*i as int),
        }
    }
}

impl Clone for Conn {
    fn clone(&self) -> (r: Conn)
        ensures
            r@ == self@,
    {
        match self {
            Conn::Inst(i, p) => Conn::Inst(*i, p.clone()),
            Conn::Port(i) => Conn::Port(*i),
        }
    }
}

#[derive(Debug, PartialEq)]
pub struct Net {
    pub name: String,
    /// Instance pins in the net's order, then its ports.
    pub pins: Vec<Conn>,
}

/// What a net holds.
#[verifier::ext_equal]
pub struct NetView {
    pub name: Seq<char>,
    pub pins: Seq<ConnView>,
}

impl View for Net {
    type V = NetView;

    open spec fn view(&self) -> NetView {
        NetView { name: self.name@, pins: Seq::new(self.pins@.len(), |i: int| self.pins@[i]@) }
    }
}

impl Clone for Net {
    fn clone(&self) -> (r: Net)
        ensures
            r@ == self@,
    {
        let pins: Vec<Conn> = self.pins.clone();
        let r: Net = Net { name: self.name.clone(), pins };
        assert(r@.pins =~= self@.pins);
        r
    }
}

impl Default for Net {
    fn default() -> (r: Net)
        ensures
            r@.name.len() == 0,
            r@.pins.len() == 0,
    {
        Net { name: String::new(), pins: Vec::new() }
    }
}

#[derive(Debug, PartialEq)]
pub struct Netlist {
    /// `(name, cell)`.
    pub insts: Vec<(String, String)>,
    pub ports: Vec<(String, PortDir)>,
    pub nets: Vec<Net>,
}

/// What a netlist holds.
#[verifier::ext_equal]
pub struct NetlistView {
    pub insts: Seq<(Seq<char>, Seq<char>)>,
    pub ports: Seq<(Seq<char>, PortDir)>,
    pub nets: Seq<NetView>,
}

impl View for Netlist {
    type V = NetlistView;

    open spec fn view(&self) -> NetlistView {
        NetlistView {
            insts: Seq::new(self.insts@.len(), |i: int| (self.insts@[i].0@, self.insts@[i].1@)),
            ports: Seq::new(self.ports@.len(), |i: int| (self.ports@[i].0@, self.ports@[i].1)),
            nets: Seq::new(self.nets@.len(), |i: int| self.nets@[i]@),
        }
    }
}

impl Clone for Netlist {
    fn clone(&self) -> (r: Netlist)
        ensures
            r@ == self@,
    {
        let mut insts: Vec<(String, String)> = Vec::new();
        let mut i: usize = 0;
        while i < self.insts.len()
            invariant
                i <= self.insts@.len(),
                insts@.len() == i,
                forall|j: int|
                    0 <= j < i ==> (#[trigger] insts@[j]).0@ == self.insts@[j].0@ && insts@[j].1@ == self.insts@[j].1@,
            decreases self.insts@.len() - i,
        {
            insts.push((self.insts[i].0.clone(), self.insts[i].1.clone()));
            i = i + 1;
        }
        let mut ports: Vec<(String, PortDir)> = Vec::new();
        let mut k: usize = 0;
        while k < self.ports.len()
            invariant
                k <= self.ports@.len(),
                ports@.len() == k,
                forall|j: int|
                    0 <= j < k ==> (#[trigger] ports@[j]).0@ == self.ports@[j].0@ && ports@[j].1 == self.ports@[j].1,
            decreases self.ports@.len() - k,
        {
            ports.push((self.ports[k].0.clone(), self.ports[k].1));
            k = k + 1;
        }
        let nets: Vec<Net> = self.nets.clone();
        let r: Netlist = Netlist { insts, ports, nets };
        assert(r@.insts =~= self@.insts);
        assert(r@.ports =~= self@.ports);
        assert(r@.nets =~= self@.nets);
        r
    }
}

impl Default for Netlist {
    fn default() -> (r: Netlist)
        ensures
            r@.insts.len() == 0,
            r@.ports.len() == 0,
            r@.nets.len() == 0,
    {
        Netlist { insts: Vec::new(), ports: Vec::new(), nets: Vec::new() }
    }
}

/// `inst/port`.
pub open spec fn path_name(inst: Seq<char>, port: Seq<char>) -> Seq<char> {
    inst + "/"@ + port
}

pub fn path_text(inst: &str, port: &str) -> (r: String)
    ensures
        r@ == path_name(inst@, port@),
{
    let mut s: String = inst.to_owned();
    s.append("/");
    s.append(port);
    s
}

impl NetlistView {
    /// The pin is one of an instance or a port there is.
    pub open spec fn has(self, c: ConnView) -> bool {
        match c {
            ConnView::Inst(i, _) => 0 <= i < self.insts.len(),
            ConnView::Port(i) => 0 <= i < self.ports.len(),
        }
    }

    /// Every pin of every net is one there is.
    pub open spec fn valid(self) -> bool {
        forall|n: int, p: int|
            0 <= n < self.nets.len() && 0 <= p < self.nets[n].pins.len() ==> self.has(
                #[trigger] self.nets[n].pins[p],
            )
    }

    pub open spec fn pin_name(self, c: ConnView) -> Seq<char> {
        match c {
            ConnView::Inst(i, p) => path_name(self.insts[i].0, p),
            ConnView::Port(i) => self.ports[i].0,
        }
    }
}

impl Netlist {
    /// A pin's path name: `inst/port` or the port's name.
    pub fn pin_name(&self, c: &Conn) -> (r: String)
        requires
            self@.has(c@),
        ensures
            r@ == self@.pin_name(c@),
    {
        match c {
            Conn::Inst(i, p) => path_text(self.insts[*i].0.as_str(), p.as_str()),
            Conn::Port(i) => self.ports[*i].0.clone(),
        }
    }
}

} // verus!
