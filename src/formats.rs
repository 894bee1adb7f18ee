use crate::graph::Edge;
use crate::network::Node;
use vstd::prelude::*;

verus! {

/// A component that carries a name.
pub trait NamedComponent {
    /// The component's name.
    spec fn name_view(&self) -> Seq<char>;

    fn get_name(&self) -> (r: String)
        ensures
            r@ == self.name_view(),
    ;
}

/// A consumer attached to the network at node `src`.
#[derive(Debug, Clone)]
pub struct Consumer {
    pub name: String,
    pub src: String,
    pub tgt: String,
}

/// A source feeding the network at node `tgt`.
#[derive(Debug, Clone)]
pub struct Source {
    pub name: String,
    pub src: String,
    pub tgt: String,
}

/// A pipe between the nodes named `src` and `tgt`.
#[derive(Debug, Clone)]
pub struct Pipe {
    pub name: String,
    pub src: String,
    pub tgt: String,
}

/// The signal names attached to a consumer or a source.
#[derive(Debug, Clone)]
pub enum Input {
    Consumer { demand: String, return_temperature: String },
    Source { base_pressure: String, pressure_lift: String, temperature: String },
}

/// Pipe parameters for networks whose computations need none.
#[derive(Debug, PartialEq, Eq, Clone, Copy)]
pub struct EmptyPipeParameters {}

/// What a node becomes: a consumer's demand node, a source's pressure node, or a junction.
#[derive(Debug, Clone, PartialEq, Eq)]
pub enum NodeRole {
    Consumer(String),
    Source(String),
    Junction,
}

/// The name lookup failed.
#[derive(Debug, Clone, PartialEq, Eq)]
pub enum FormatError {
    /// No node carries this name.
    UnknownNode { name: String },
    /// The input has the other kind than the one asked for.
    WrongInputKind { name: String },
}

impl NamedComponent for Consumer {
    open spec fn name_view(&self) -> Seq<char> {
        self.name@
    }

    fn get_name(&self) -> (r: String) {
        self.name.clone()
    }
}

impl NamedComponent for Source {
    open spec fn name_view(&self) -> Seq<char> {
        self.name@
    }

    fn get_name(&self) -> (r: String) {
        self.name.clone()
    }
}

impl NamedComponent for Pipe {
    open spec fn name_view(&self) -> Seq<char> {
        self.name@
    }

    fn get_name(&self) -> (r: String) {
        self.name.clone()
    }
}

impl<S, P> NamedComponent for Node<S, P> {
    open spec fn name_view(&self) -> Seq<char> {
        match self {
            Node::Pressure { name, .. } => name@,
            Node::Demand { name, .. } => name@,
            Node::Zero { name, .. } => name@,
        }
    }

    fn get_name(&self) -> (r: String) {
        match self {
            Node::Pressure { name, .. } => name.clone(),
            Node::Demand { name, .. } => name.clone(),
            Node::Zero { name, .. } => name.clone(),
        }
    }
}

impl Input {
    /// The demand signal name of a consumer input.
    pub fn consumer_demand(&self, input_name: &String) -> (r: Result<String, FormatError>)
        ensures
            self is Consumer ==> (r matches Ok(d) && d@ == self->Consumer_demand@),
            self is Source ==> r == Err::<String, FormatError>(
                FormatError::WrongInputKind { name: *input_name },
            ),
    {
        match self {
            Input::Consumer { demand, .. } => Ok(demand.clone()),
            Input::Source { .. } => Err(FormatError::WrongInputKind { name: input_name.clone() }),
        }
    }

    /// The pressure lift and temperature signal names of a source input.
    pub fn source_signals(&self, input_name: &String) -> (r: Result<(String, String), FormatError>)
        ensures
            self is Source ==> (r matches Ok((p, t)) && p@ == self->Source_pressure_lift@ && t@
                == self->Source_temperature@),
            self is Consumer ==> r == Err::<(String, String), FormatError>(
                FormatError::WrongInputKind { name: *input_name },
            ),
    {
        match self {
            Input::Source { pressure_lift, temperature, .. } => Ok(
                (pressure_lift.clone(), temperature.clone()),
            ),
            Input::Consumer { .. } => Err(FormatError::WrongInputKind { name: input_name.clone() }),
        }
    }
}

/// Pairs each element's node name (as `extract_node_name` reads it) with the element's own
/// name, in element order. Later pairs take precedence in `mapped_name`.
pub fn node_mapping<T: NamedComponent, F: Fn(&T) -> String>(
    elements: &[T],
    extract_node_name: F,
) -> (r: Vec<(String, String)>)
    requires
        forall|x: &T| #[trigger] extract_node_name.requires((x,)),
    ensures
        r@.len() == elements@.len(),
        forall|i: int|
            0 <= i < elements@.len() ==> extract_node_name.ensures(
                (&elements@[i],),
                (#[trigger] r@[i]).0,
            ) && r@[i].1@ == elements@[i].name_view(),
{
    let mut mapping: Vec<(String, String)> = Vec::new();
    let mut i: usize = 0;
    while i < elements.len()
        invariant
            i <= elements@.len(),
            mapping@.len() == i,
            forall|x: &T| #[trigger] extract_node_name.requires((x,)),
            forall|k: int|
                0 <= k < i ==> extract_node_name.ensures((&elements@[k],), (#[trigger] mapping@[k]).0)
                    && mapping@[k].1@ == elements@[k].name_view(),
        decreases elements@.len() - i,
    {
        let element = &elements[i];
        let key = extract_node_name(element);
        let name = element.get_name();
        mapping.push((key, name));
        i = i + 1;
    }
    mapping
}

/// The value of the last pair among the first `k` whose key is `key`.
pub open spec fn last_value(mapping: Seq<(String, String)>, key: Seq<char>, k: int) -> Option<Seq<char>>
    decreases k,
{
    if k <= 0 {
        None
    } else if mapping[k - 1].0@ == key {
        Some(mapping[k - 1].1@)
    } else {
        last_value(mapping, key, k - 1)
    }
}

/// The value paired with `key`, the last pair winning.
pub fn mapped_name(mapping: &Vec<(String, String)>, key: &String) -> (r: Option<String>)
    ensures
        r is None <==> last_value(mapping@, key@, mapping@.len() as int) is None,
        r matches Some(v) ==> last_value(mapping@, key@, mapping@.len() as int) == Some(v@),
{
    let mut k = mapping.len();
    while k > 0
        invariant
            k <= mapping@.len(),
            last_value(mapping@, key@, mapping@.len() as int) == last_value(mapping@, key@, k as int),
        decreases k,
    {
        k = k - 1;
        if mapping[k].0 == *key {
            return Some(mapping[k].1.clone());
        }
    }
    None
}

/// The role of the node named `node_name`: a consumer attached there comes first, then a
/// source feeding it; otherwise a junction.
pub fn node_role(
    node_name: &String,
    consumers_by_node: &Vec<(String, String)>,
    sources_by_node: &Vec<(String, String)>,
) -> (r: NodeRole)
    ensures
        ({
            let consumer = last_value(consumers_by_node@, node_name@, consumers_by_node@.len() as int);
            let source = last_value(sources_by_node@, node_name@, sources_by_node@.len() as int);
            &&& consumer is Some ==> (r matches NodeRole::Consumer(name) && name@ == consumer->Some_0)
            &&& (consumer is None && source is Some) ==> (r matches NodeRole::Source(name) && name@
                == source->Some_0)
            &&& (consumer is None && source is None) ==> r == NodeRole::Junction
        }),
{
    if let Some(consumer_name) = mapped_name(consumers_by_node, node_name) {
        NodeRole::Consumer(consumer_name)
    } else if let Some(source_name) = mapped_name(sources_by_node, node_name) {
        NodeRole::Source(source_name)
    } else {
        NodeRole::Junction
    }
}

/// The last index among the first `k` names that equals `name`.
pub open spec fn last_index_of(names: Seq<String>, name: Seq<char>, k: int) -> Option<usize>
    decreases k,
{
    if k <= 0 {
        None
    } else if names[k - 1]@ == name {
        Some((k - 1) as usize)
    } else {
        last_index_of(names, name, k - 1)
    }
}

/// The index of the node named `name`, the last one winning.
fn node_index(names: &Vec<String>, name: &String) -> (r: Result<usize, FormatError>)
    ensures
        last_index_of(names@, name@, names@.len() as int) matches Some(i) ==> r == Ok::<
            usize,
            FormatError,
        >(i),
        last_index_of(names@, name@, names@.len() as int) is None ==> r == Err::<usize, FormatError>(
            FormatError::UnknownNode { name: *name },
        ),
{
    let mut k = names.len();
    while k > 0
        invariant
            k <= names@.len(),
            last_index_of(names@, name@, names@.len() as int) == last_index_of(names@, name@, k as int),
        decreases k,
    {
        k = k - 1;
        if names[k] == *name {
            return Ok(k);
        }
    }
    Err(FormatError::UnknownNode { name: name.clone() })
}

/// Both endpoints of every pipe name a node.
pub open spec fn pipes_resolve(names: Seq<String>, pipes: Seq<Pipe>) -> bool {
    forall|i: int|
        0 <= i < pipes.len() ==> last_index_of(names, (#[trigger] pipes[i]).src@, names.len() as int)
            is Some && last_index_of(names, pipes[i].tgt@, names.len() as int) is Some
}

/// Turns each pipe into the edge between the indices of its named endpoints.
pub fn resolve_pipes(node_names: &Vec<String>, pipes: &[Pipe]) -> (r: Result<Vec<Edge>, FormatError>)
    ensures
        r is Ok <==> pipes_resolve(node_names@, pipes@),
        r is Err ==> r matches Err(FormatError::UnknownNode { .. }),
        r matches Ok(edges) ==> edges@.len() == pipes@.len() && forall|i: int|
            0 <= i < pipes@.len() ==> Some((#[trigger] edges@[i]).src) == last_index_of(
                node_names@,
                pipes@[i].src@,
                node_names@.len() as int,
            ) && Some(edges@[i].tgt) == last_index_of(
                node_names@,
                pipes@[i].tgt@,
                node_names@.len() as int,
            ),
{
    let ghost names = node_names@;
    let mut edges: Vec<Edge> = Vec::new();
    let mut i: usize = 0;
    while i < pipes.len()
        invariant
            i <= pipes@.len(),
            names == node_names@,
            edges@.len() == i,
            forall|k: int|
                0 <= k < i ==> last_index_of(names, (#[trigger] pipes@[k]).src@, names.len() as int)
                    is Some && last_index_of(names, pipes@[k].tgt@, names.len() as int) is Some,
            forall|k: int|
                0 <= k < i ==> Some((#[trigger] edges@[k]).src) == last_index_of(
                    names,
                    pipes@[k].src@,
                    names.len() as int,
                ) && Some(edges@[k].tgt) == last_index_of(names, pipes@[k].tgt@, names.len() as int),
        decreases pipes@.len() - i,
    {
        let pipe = &pipes[i];
        let src = node_index(node_names, &pipe.src)?;
        let tgt = node_index(node_names, &pipe.tgt)?;
        edges.push(Edge { src, tgt });
        i = i + 1;
    }
    Ok(edges)
}

} // verus!
