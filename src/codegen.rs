//! Statements of the graph description text format (DOT): attributes,
//! nodes and edges, their builders, and their rendering as text.
use vstd::prelude::*;
use vstd::string::StringExecFns;

verus! {

/// Something that assembles a `T` and may lack a part it needs.
pub trait Builder<T>: Sized {
    /// Consumes the builder; `None` when a required part was never given.
    fn build(self) -> Option<T>;
}

/// A type with a builder.
pub trait Buildable<B: Builder<Self>>: Sized {
    /// A builder with nothing set yet.
    fn builder() -> B;
}

/// Whether text is laid out with indentation and line breaks.
#[derive(Clone, Copy, Debug, PartialEq, Eq, Structural)]
pub enum FormatterSettings {
    /// Indentation and new lines.
    Pretty,
    /// Minimal new lines and whitespace.
    Minified,
}

impl Default for FormatterSettings {
    fn default() -> (r: Self)
        ensures
            r == FormatterSettings::Pretty,
    {
        FormatterSettings::Pretty
    }
}

/// Node shapes.
#[derive(Clone, Copy, Debug, PartialEq, Eq, Structural)]
pub enum ShapeKind {
    Ellipse,
    Box,
    Circle,
    Diamond,
}

/// Colours.
#[derive(Clone, Copy, Debug, PartialEq, Eq, Structural)]
pub enum ColorKind {
    Blue,
}

/// Line styles.
#[derive(Clone, Copy, Debug, PartialEq, Eq, Structural)]
pub enum StyleKind {
    Solid,
    Dotted,
    Dashed,
}

/// Edge directions.
#[derive(Clone, Copy, Debug, PartialEq, Eq, Structural)]
pub enum DirectionKind {
    Forward,
    Back,
}

/// Layout directions of a graph.
#[derive(Clone, Copy, Debug, PartialEq, Eq, Structural)]
pub enum RankDirectionKind {
    TopBottom,
    LeftRight,
}

/// Styles of edge curves.
#[derive(Clone, Copy, Debug, PartialEq, Eq, Structural)]
pub enum CurveStyleKind {
    True,
    False,
    Ortho,
}

impl ShapeKind {
    pub open spec fn text(self) -> Seq<char> {
        match self {
            ShapeKind::Ellipse => "ellipse"@,
            ShapeKind::Box => "box"@,
            ShapeKind::Circle => "circle"@,
            ShapeKind::Diamond => "diamond"@,
        }
    }

    /// The keyword of this shape.
    pub fn as_str(&self) -> (r: &'static str)
        ensures
            r@ == self.text(),
    {
        match self {
            ShapeKind::Ellipse => "ellipse",
            ShapeKind::Box => "box",
            ShapeKind::Circle => "circle",
            ShapeKind::Diamond => "diamond",
        }
    }
}

impl ColorKind {
    pub open spec fn text(self) -> Seq<char> {
        match self {
            ColorKind::Blue => "blue"@,
        }
    }

    /// The keyword of this colour.
    pub fn as_str(&self) -> (r: &'static str)
        ensures
            r@ == self.text(),
    {
        match self {
            ColorKind::Blue => "blue",
        }
    }
}

impl StyleKind {
    pub open spec fn text(self) -> Seq<char> {
        match self {
            StyleKind::Solid => "solid"@,
            StyleKind::Dotted => "dotted"@,
            StyleKind::Dashed => "dashed"@,
        }
    }

    /// The keyword of this style.
    pub fn as_str(&self) -> (r: &'static str)
        ensures
            r@ == self.text(),
    {
        match self {
            StyleKind::Solid => "solid",
            StyleKind::Dotted => "dotted",
            StyleKind::Dashed => "dashed",
        }
    }
}

impl DirectionKind {
    pub open spec fn text(self) -> Seq<char> {
        match self {
            DirectionKind::Forward => "forward"@,
            DirectionKind::Back => "back"@,
        }
    }

    /// The keyword of this direction.
    pub fn as_str(&self) -> (r: &'static str)
        ensures
            r@ == self.text(),
    {
        match self {
            DirectionKind::Forward => "forward",
            DirectionKind::Back => "back",
        }
    }
}

impl RankDirectionKind {
    pub open spec fn text(self) -> Seq<char> {
        match self {
            RankDirectionKind::TopBottom => "TB"@,
            RankDirectionKind::LeftRight => "LR"@,
        }
    }

    /// The keyword of this layout direction.
    pub fn as_str(&self) -> (r: &'static str)
        ensures
            r@ == self.text(),
    {
        match self {
            RankDirectionKind::TopBottom => "TB",
            RankDirectionKind::LeftRight => "LR",
        }
    }
}

impl CurveStyleKind {
    pub open spec fn text(self) -> Seq<char> {
        match self {
            CurveStyleKind::True => "true"@,
            CurveStyleKind::False => "false"@,
            CurveStyleKind::Ortho => "ortho"@,
        }
    }

    /// The keyword of this curve style.
    pub fn as_str(&self) -> (r: &'static str)
        ensures
            r@ == self.text(),
    {
        match self {
            CurveStyleKind::True => "true",
            CurveStyleKind::False => "false",
            CurveStyleKind::Ortho => "ortho",
        }
    }
}

/// The character of a decimal digit.
pub open spec fn digit_char(d: nat) -> char {
    if d == 0 {
        '0'
    } else if d == 1 {
        '1'
    } else if d == 2 {
        '2'
    } else if d == 3 {
        '3'
    } else if d == 4 {
        '4'
    } else if d == 5 {
        '5'
    } else if d == 6 {
        '6'
    } else if d == 7 {
        '7'
    } else if d == 8 {
        '8'
    } else {
        '9'
    }
}

/// The decimal digits of `n`, without leading zeros.
pub open spec fn decimal(n: nat) -> Seq<char>
    decreases n,
{
    if n < 10 {
        seq![digit_char(n)]
    } else {
        decimal(n / 10).push(digit_char(n % 10))
    }
}

fn digit_str(d: usize) -> (r: &'static str)
    requires
        d < 10,
    ensures
        r@ == seq![digit_char(d as nat)],
{
    proof {
        reveal_strlit("0");
        reveal_strlit("1");
        reveal_strlit("2");
        reveal_strlit("3");
        reveal_strlit("4");
        reveal_strlit("5");
        reveal_strlit("6");
        reveal_strlit("7");
        reveal_strlit("8");
        reveal_strlit("9");
    }
    if d == 0 {
        "0"
    } else if d == 1 {
        "1"
    } else if d == 2 {
        "2"
    } else if d == 3 {
        "3"
    } else if d == 4 {
        "4"
    } else if d == 5 {
        "5"
    } else if d == 6 {
        "6"
    } else if d == 7 {
        "7"
    } else if d == 8 {
        "8"
    } else {
        "9"
    }
}

/// Writes `n` in decimal.
pub fn decimal_string(n: usize) -> (r: String)
    ensures
        r@ == decimal(n as nat),
    decreases n,
{
    if n < 10 {
        String::from_str(digit_str(n))
    } else {
        let mut s = decimal_string(n / 10);
        s.append(digit_str(n % 10));
        s
    }
}

/// Attributes of graphs, nodes and edges.
#[derive(Clone, Debug, PartialEq)]
pub enum Attribute {
    /// `fontname`
    FontName(String),
    /// `label`
    Label(String),
    /// `shape`: the shape of a node.
    Shape(ShapeKind),
    /// `color`: the colour of a node's border or of an edge.
    Color(ColorKind),
    /// `fillcolor`: the background colour of a node.
    FillColor(ColorKind),
    /// `tooltip`: a tooltip attached to a node.
    Tooltip(String),
    /// `URL`: a URL attached to a node.
    URL(String),
    /// `style`: the line style of edges.
    Style(StyleKind),
    /// `dir`: the direction of an edge, or none.
    Direction(Option<DirectionKind>),
    /// `fontsize`: the font size of an edge's label.
    FontSize(usize),
    /// `bgcolor`: the background colour of a graph.
    BgColor(ColorKind),
    /// `rankdir`: the direction of a graph's layout.
    RankDirection(RankDirectionKind),
    /// `splines`: the style of edge lines.
    CurveStyle(CurveStyleKind),
}

/// `"` as a sequence of characters.
pub open spec fn quote() -> Seq<char> {
    seq!['"']
}

impl Attribute {
    /// The text of this attribute: `name=value`, with string values quoted.
    pub open spec fn text(self) -> Seq<char> {
        match self {
            Attribute::FontName(s) => "fontname="@ + quote() + s@ + quote(),
            Attribute::Label(s) => "label="@ + quote() + s@ + quote(),
            Attribute::Shape(k) => "shape="@ + k.text(),
            Attribute::Color(k) => "color="@ + k.text(),
            Attribute::FillColor(k) => "fillcolor="@ + k.text(),
            Attribute::Tooltip(s) => "tooltip="@ + quote() + s@ + quote(),
            Attribute::URL(s) => "URL="@ + quote() + s@ + quote(),
            Attribute::Style(k) => "style="@ + k.text(),
            Attribute::Direction(Some(k)) => "dir="@ + k.text(),
            Attribute::Direction(None) => "dir=none"@,
            Attribute::FontSize(n) => "fontsize="@ + quote() + decimal(n as nat) + quote(),
            Attribute::BgColor(k) => "bgcolor="@ + k.text(),
            Attribute::RankDirection(k) => "rankdir="@ + k.text(),
            Attribute::CurveStyle(k) => "splines="@ + k.text(),
        }
    }

    /// Renders this attribute as `name=value`.
    pub fn to_dot(&self) -> (r: String)
        ensures
            r@ == self.text(),
    {
        proof {
            reveal_strlit("\"");
        }
        match self {
            Attribute::FontName(s) => quoted("fontname=", s),
            Attribute::Label(s) => quoted("label=", s),
            Attribute::Shape(k) => String::from_str("shape=").concat(k.as_str()),
            Attribute::Color(k) => String::from_str("color=").concat(k.as_str()),
            Attribute::FillColor(k) => String::from_str("fillcolor=").concat(k.as_str()),
            Attribute::Tooltip(s) => quoted("tooltip=", s),
            Attribute::URL(s) => quoted("URL=", s),
            Attribute::Style(k) => String::from_str("style=").concat(k.as_str()),
            Attribute::Direction(Some(k)) => String::from_str("dir=").concat(k.as_str()),
            Attribute::Direction(None) => String::from_str("dir=none"),
            Attribute::FontSize(n) => {
                let digits = decimal_string(*n);
                quoted("fontsize=", &digits)
            },
            Attribute::BgColor(k) => String::from_str("bgcolor=").concat(k.as_str()),
            Attribute::RankDirection(k) => String::from_str("rankdir=").concat(k.as_str()),
            Attribute::CurveStyle(k) => String::from_str("splines=").concat(k.as_str()),
        }
    }
}

/// `name` followed by `value` in double quotes.
fn quoted(name: &str, value: &String) -> (r: String)
    ensures
        r@ == name@ + quote() + value@ + quote(),
{
    proof {
        reveal_strlit("\"");
    }
    let mut r = String::from_str(name);
    r.append("\"");
    r.append(value.as_str());
    r.append("\"");
    r
}

/// What a node statement or an edge endpoint names.
#[derive(Clone, Debug, PartialEq)]
pub enum NodeKind {
    /// `graph`: defaults for the graph.
    Graph,
    /// `node`: defaults for nodes.
    Node,
    /// `edge`: defaults for edges.
    Edge,
    /// A node of the user's.
    Custom(String),
}

impl NodeKind {
    pub open spec fn text(self) -> Seq<char> {
        match self {
            NodeKind::Graph => "graph"@,
            NodeKind::Node => "node"@,
            NodeKind::Edge => "edge"@,
            NodeKind::Custom(s) => s@,
        }
    }

    /// A node of the user's, named `name`.
    pub fn custom(name: &str) -> (r: Self)
        ensures
            r matches NodeKind::Custom(s) && s@ == name@,
    {
        NodeKind::Custom(String::from_str(name))
    }

    /// Renders this name.
    pub fn to_dot(&self) -> (r: String)
        ensures
            r@ == self.text(),
    {
        match self {
            NodeKind::Graph => String::from_str("graph"),
            NodeKind::Node => String::from_str("node"),
            NodeKind::Edge => String::from_str("edge"),
            NodeKind::Custom(s) => String::from_str(s.as_str()),
        }
    }
}

/// Collects attributes.
pub struct AttributesBuilder(Vec<Attribute>);

impl View for AttributesBuilder {
    type V = Seq<Attribute>;

    closed spec fn view(&self) -> Seq<Attribute> {
        self.0@
    }
}

impl Default for AttributesBuilder {
    fn default() -> (r: Self)
        ensures
            r@ == Seq::<Attribute>::empty(),
    {
        AttributesBuilder(Vec::new())
    }
}

impl Builder<Vec<Attribute>> for AttributesBuilder {
    fn build(self) -> (r: Option<Vec<Attribute>>) {
        Some(self.0)
    }
}

impl Buildable<AttributesBuilder> for Vec<Attribute> {
    fn builder() -> (r: AttributesBuilder) {
        AttributesBuilder::default()
    }
}

impl AttributesBuilder {
    /// The attributes collected so far.
    pub fn attributes(&self) -> (r: &Vec<Attribute>)
        ensures
            r@ == self@,
    {
        &self.0
    }

    /// Adds a `fontname` attribute.
    pub fn font_name(self, f: String) -> (r: Self)
        ensures
            r@ == self@.push(Attribute::FontName(f)),
    {
        let mut v = self.0;
        v.push(Attribute::FontName(f));
        AttributesBuilder(v)
    }

    /// Adds a `label` attribute.
    pub fn label(self, l: String) -> (r: Self)
        ensures
            r@ == self@.push(Attribute::Label(l)),
    {
        let mut v = self.0;
        v.push(Attribute::Label(l));
        AttributesBuilder(v)
    }

    /// Adds a `shape` attribute.
    pub fn shape(self, shape: ShapeKind) -> (r: Self)
        ensures
            r@ == self@.push(Attribute::Shape(shape)),
    {
        let mut v = self.0;
        v.push(Attribute::Shape(shape));
        AttributesBuilder(v)
    }

    /// Adds a `color` attribute.
    pub fn color(self, color: ColorKind) -> (r: Self)
        ensures
            r@ == self@.push(Attribute::Color(color)),
    {
        let mut v = self.0;
        v.push(Attribute::Color(color));
        AttributesBuilder(v)
    }

    /// The attributes collected.
    pub fn into_vec(self) -> (r: Vec<Attribute>)
        ensures
            r@ == self@,
    {
        self.0
    }
}

/// A node statement: a name and, possibly, attributes.
#[derive(Clone, Debug, PartialEq)]
pub struct Node {
    pub kind: NodeKind,
    pub attributes: Option<Vec<Attribute>>,
}

/// Builds a `Node`; the name is required.
pub struct NodeBuilder {
    kind: Option<NodeKind>,
    attributes: Option<Vec<Attribute>>,
}

impl NodeBuilder {
    /// The name set so far.
    pub closed spec fn spec_kind(&self) -> Option<NodeKind> {
        self.kind
    }

    /// The attributes set so far.
    pub closed spec fn spec_attributes(&self) -> Option<Vec<Attribute>> {
        self.attributes
    }

    /// Sets the name.
    pub fn kind(self, kind: NodeKind) -> (r: Self)
        ensures
            r.spec_kind() == Some(kind),
            r.spec_attributes() == self.spec_attributes(),
    {
        NodeBuilder { kind: Some(kind), attributes: self.attributes }
    }

    /// Sets the attributes.
    pub fn attributes(self, attributes: Vec<Attribute>) -> (r: Self)
        ensures
            r.spec_kind() == self.spec_kind(),
            r.spec_attributes() == Some(attributes),
    {
        NodeBuilder { kind: self.kind, attributes: Some(attributes) }
    }
}

impl Default for NodeBuilder {
    fn default() -> (r: Self)
        ensures
            r.spec_kind().is_none(),
            r.spec_attributes().is_none(),
    {
        NodeBuilder { kind: None, attributes: None }
    }
}

impl Builder<Node> for NodeBuilder {
    fn build(self) -> (r: Option<Node>)
        ensures
            self.spec_kind().is_none() ==> r.is_none(),
            self.spec_kind().is_some() ==> r == Some(
                Node { kind: self.spec_kind().unwrap(), attributes: self.spec_attributes() },
            ),
    {
        match self.kind {
            Some(kind) => Some(Node { kind, attributes: self.attributes }),
            None => None,
        }
    }
}

impl Buildable<NodeBuilder> for Node {
    fn builder() -> (r: NodeBuilder) {
        NodeBuilder::default()
    }
}

/// An edge statement: two endpoints and, possibly, attributes.
#[derive(Clone, Debug, PartialEq)]
pub struct Edge {
    pub left: NodeKind,
    pub right: NodeKind,
    pub attributes: Option<Vec<Attribute>>,
}

/// Builds an `Edge`; both endpoints are required.
pub struct EdgeBuilder {
    left: Option<NodeKind>,
    right: Option<NodeKind>,
    attributes: Option<Vec<Attribute>>,
}

impl EdgeBuilder {
    /// The left endpoint set so far.
    pub closed spec fn spec_left(&self) -> Option<NodeKind> {
        self.left
    }

    /// The right endpoint set so far.
    pub closed spec fn spec_right(&self) -> Option<NodeKind> {
        self.right
    }

    /// The attributes set so far.
    pub closed spec fn spec_attributes(&self) -> Option<Vec<Attribute>> {
        self.attributes
    }

    /// Sets the left endpoint.
    pub fn left(self, left: NodeKind) -> (r: Self)
        ensures
            r.spec_left() == Some(left),
            r.spec_right() == self.spec_right(),
            r.spec_attributes() == self.spec_attributes(),
    {
        EdgeBuilder { left: Some(left), right: self.right, attributes: self.attributes }
    }

    /// Sets the right endpoint.
    pub fn right(self, right: NodeKind) -> (r: Self)
        ensures
            r.spec_left() == self.spec_left(),
            r.spec_right() == Some(right),
            r.spec_attributes() == self.spec_attributes(),
    {
        EdgeBuilder { left: self.left, right: Some(right), attributes: self.attributes }
    }

    /// Sets the attributes.
    pub fn attributes(self, attributes: Vec<Attribute>) -> (r: Self)
        ensures
            r.spec_left() == self.spec_left(),
            r.spec_right() == self.spec_right(),
            r.spec_attributes() == Some(attributes),
    {
        EdgeBuilder { left: self.left, right: self.right, attributes: Some(attributes) }
    }
}

impl Default for EdgeBuilder {
    fn default() -> (r: Self)
        ensures
            r.spec_left().is_none(),
            r.spec_right().is_none(),
            r.spec_attributes().is_none(),
    {
        EdgeBuilder { left: None, right: None, attributes: None }
    }
}

impl Builder<Edge> for EdgeBuilder {
    fn build(self) -> (r: Option<Edge>)
        ensures
            self.spec_left().is_none() || self.spec_right().is_none() ==> r.is_none(),
            self.spec_left().is_some() && self.spec_right().is_some() ==> r == Some(
                Edge {
                    left: self.spec_left().unwrap(),
                    right: self.spec_right().unwrap(),
                    attributes: self.spec_attributes(),
                },
            ),
    {
        match (self.left, self.right) {
            (Some(left), Some(right)) => Some(Edge { left, right, attributes: self.attributes }),
            _ => None,
        }
    }
}

impl Buildable<EdgeBuilder> for Edge {
    fn builder() -> (r: EdgeBuilder) {
        EdgeBuilder::default()
    }
}

/// A graph statement: an optional name, its statements and attributes,
/// and whether it is strict.
#[derive(Debug, PartialEq)]
pub struct Graph {
    pub name: Option<String>,
    pub edges: Vec<EdgeKind>,
    pub is_strict: bool,
    pub attributes: Vec<Attribute>,
}

/// A graph statement with its direction: `graph` or `digraph`.
#[derive(Debug, PartialEq)]
pub enum GraphKind {
    Undirected(Graph),
    Directed(Graph),
}

impl GraphKind {
    /// The graph, whatever its direction.
    pub open spec fn inner(self) -> Graph {
        match self {
            GraphKind::Directed(g) => g,
            GraphKind::Undirected(g) => g,
        }
    }

    /// The graph, whatever its direction.
    pub fn into_graph(self) -> (r: Graph)
        ensures
            r == self.inner(),
    {
        match self {
            GraphKind::Directed(graph) => graph,
            GraphKind::Undirected(graph) => graph,
        }
    }
}

/// A subgraph statement: an optional name and a body.
#[derive(Debug, PartialEq)]
pub struct SubGraph {
    pub name: Option<String>,
    pub body: Vec<EdgeKind>,
}

/// The statements of the format.
#[derive(Debug, PartialEq)]
pub enum EdgeKind {
    /// `kind [attributes]`
    Node(Node),
    /// `left -> right [attributes]`
    Edge(Box<Edge>),
    /// `subgraph { body }`
    SubGraph(SubGraph),
    /// `// text`
    Comment(String),
    /// A nested graph.
    Graph(GraphKind),
}

/// Builds a `GraphKind`; nothing is required.
pub struct GraphBuilder {
    name: Option<String>,
    edges: Vec<EdgeKind>,
    is_strict: Option<bool>,
    attributes: Vec<Attribute>,
    is_directed: bool,
}

impl View for GraphBuilder {
    /// Name, statements, strictness, attributes, direction.
    type V = (Option<String>, Seq<EdgeKind>, Option<bool>, Seq<Attribute>, bool);

    closed spec fn view(&self) -> Self::V {
        (self.name, self.edges@, self.is_strict, self.attributes@, self.is_directed)
    }
}

impl Default for GraphBuilder {
    fn default() -> (r: Self)
        ensures
            r@ == (None::<String>, Seq::<EdgeKind>::empty(), None::<bool>, Seq::<Attribute>::empty(), false),
    {
        GraphBuilder { name: None, edges: Vec::new(), is_strict: None, attributes: Vec::new(), is_directed: false }
    }
}

impl GraphBuilder {
    /// Sets the name.
    pub fn name(self, name: String) -> (r: Self)
        ensures
            r@ == (Some(name), self@.1, self@.2, self@.3, self@.4),
    {
        GraphBuilder { name: Some(name), ..self }
    }

    /// Sets the statements.
    pub fn edges(self, edges: Vec<EdgeKind>) -> (r: Self)
        ensures
            r@ == (self@.0, edges@, self@.2, self@.3, self@.4),
    {
        GraphBuilder { edges, ..self }
    }

    /// Makes the graph strict.
    pub fn strict(self) -> (r: Self)
        ensures
            r@ == (self@.0, self@.1, Some(true), self@.3, self@.4),
    {
        GraphBuilder { is_strict: Some(true), ..self }
    }

    /// Makes the graph directed.
    pub fn directed(self) -> (r: Self)
        ensures
            r@ == (self@.0, self@.1, self@.2, self@.3, true),
    {
        GraphBuilder { is_directed: true, ..self }
    }

    /// Makes the graph undirected.
    pub fn undirected(self) -> (r: Self)
        ensures
            r@ == (self@.0, self@.1, self@.2, self@.3, false),
    {
        GraphBuilder { is_directed: false, ..self }
    }
}

impl Builder<GraphKind> for GraphBuilder {
    fn build(self) -> (r: Option<GraphKind>)
        ensures
            r is Some,
            ({
                let g = r->Some_0.inner();
                &&& g.name == self@.0
                &&& g.edges@ == self@.1
                &&& g.is_strict == (self@.2 == Some(true))
                &&& g.attributes@ == self@.3
                &&& (r->Some_0 is Directed <==> self@.4)
            }),
    {
        let is_strict = match self.is_strict {
            Some(b) => b,
            None => false,
        };
        let graph = Graph { name: self.name, edges: self.edges, is_strict, attributes: self.attributes };
        Some(
            if self.is_directed {
                GraphKind::Directed(graph)
            } else {
                GraphKind::Undirected(graph)
            },
        )
    }
}

impl Buildable<GraphBuilder> for GraphKind {
    fn builder() -> (r: GraphBuilder) {
        GraphBuilder::default()
    }
}

/// Builds a `SubGraph`; the body is required.
pub struct SubGraphBuilder {
    name: Option<String>,
    body: Option<Vec<EdgeKind>>,
}

impl View for SubGraphBuilder {
    /// Name and body.
    type V = (Option<String>, Option<Vec<EdgeKind>>);

    closed spec fn view(&self) -> Self::V {
        (self.name, self.body)
    }
}

impl Default for SubGraphBuilder {
    fn default() -> (r: Self)
        ensures
            r@ == (None::<String>, None::<Vec<EdgeKind>>),
    {
        SubGraphBuilder { name: None, body: None }
    }
}

impl SubGraphBuilder {
    /// Sets the name.
    pub fn name(self, name: String) -> (r: Self)
        ensures
            r@ == (Some(name), self@.1),
    {
        SubGraphBuilder { name: Some(name), body: self.body }
    }

    /// Sets the body.
    pub fn body(self, body: Vec<EdgeKind>) -> (r: Self)
        ensures
            r@ == (self@.0, Some(body)),
    {
        SubGraphBuilder { name: self.name, body: Some(body) }
    }
}

impl Builder<SubGraph> for SubGraphBuilder {
    fn build(self) -> (r: Option<SubGraph>)
        ensures
            self@.1 is None ==> r is None,
            self@.1 is Some ==> r == Some(SubGraph { name: self@.0, body: self@.1->Some_0 }),
    {
        match self.body {
            Some(body) => Some(SubGraph { name: self.name, body }),
            None => None,
        }
    }
}

impl Buildable<SubGraphBuilder> for SubGraph {
    fn builder() -> (r: SubGraphBuilder) {
        SubGraphBuilder::default()
    }
}

/// Collects statements.
pub struct EdgeKindsBuilder(Vec<EdgeKind>);

impl View for EdgeKindsBuilder {
    type V = Seq<EdgeKind>;

    closed spec fn view(&self) -> Seq<EdgeKind> {
        self.0@
    }
}

impl Default for EdgeKindsBuilder {
    fn default() -> (r: Self)
        ensures
            r@ == Seq::<EdgeKind>::empty(),
    {
        EdgeKindsBuilder(Vec::new())
    }
}

impl Builder<Vec<EdgeKind>> for EdgeKindsBuilder {
    fn build(self) -> (r: Option<Vec<EdgeKind>>)
        ensures
            r is Some && r->Some_0@ == self@,
    {
        Some(self.0)
    }
}

impl Buildable<EdgeKindsBuilder> for Vec<EdgeKind> {
    fn builder() -> (r: EdgeKindsBuilder) {
        EdgeKindsBuilder::default()
    }
}

impl EdgeKindsBuilder {
    /// The statements collected so far.
    pub fn statements(&self) -> (r: &Vec<EdgeKind>)
        ensures
            r@ == self@,
    {
        &self.0
    }

    /// Adds a node statement.
    pub fn node(self, name: NodeKind, attributes: Vec<Attribute>) -> (r: Self)
        ensures
            r@ == self@.push(EdgeKind::Node(Node { kind: name, attributes: Some(attributes) })),
    {
        let mut v = self.0;
        v.push(EdgeKind::Node(Node { kind: name, attributes: Some(attributes) }));
        EdgeKindsBuilder(v)
    }

    /// Adds an edge statement.
    pub fn edge(self, edge: Edge) -> (r: Self)
        ensures
            r@ == self@.push(EdgeKind::Edge(Box::new(edge))),
    {
        let mut v = self.0;
        v.push(EdgeKind::Edge(Box::new(edge)));
        EdgeKindsBuilder(v)
    }

    /// Adds a subgraph statement.
    pub fn subgraph(self, subgraph: SubGraph) -> (r: Self)
        ensures
            r@ == self@.push(EdgeKind::SubGraph(subgraph)),
    {
        let mut v = self.0;
        v.push(EdgeKind::SubGraph(subgraph));
        EdgeKindsBuilder(v)
    }

    /// Adds a comment.
    pub fn comment(self, text: String) -> (r: Self)
        ensures
            r@ == self@.push(EdgeKind::Comment(text)),
    {
        let mut v = self.0;
        v.push(EdgeKind::Comment(text));
        EdgeKindsBuilder(v)
    }

    /// Adds `graph` as an undirected graph, whatever its direction was.
    pub fn graph(self, graph: GraphKind) -> (r: Self)
        ensures
            r@ == self@.push(EdgeKind::Graph(GraphKind::Undirected(graph.inner()))),
    {
        let mut v = self.0;
        v.push(EdgeKind::Graph(GraphKind::Undirected(graph.into_graph())));
        EdgeKindsBuilder(v)
    }

    /// Adds `graph` as a directed graph, whatever its direction was.
    pub fn digraph(self, graph: GraphKind) -> (r: Self)
        ensures
            r@ == self@.push(EdgeKind::Graph(GraphKind::Directed(graph.inner()))),
    {
        let mut v = self.0;
        v.push(EdgeKind::Graph(GraphKind::Directed(graph.into_graph())));
        EdgeKindsBuilder(v)
    }
}

/// Holds at most one statement; the last one set wins.
pub struct EdgeKindBuilder(Option<EdgeKind>);

impl View for EdgeKindBuilder {
    type V = Option<EdgeKind>;

    closed spec fn view(&self) -> Option<EdgeKind> {
        self.0
    }
}

impl Default for EdgeKindBuilder {
    fn default() -> (r: Self)
        ensures
            r@ is None,
    {
        EdgeKindBuilder(None)
    }
}

impl Builder<EdgeKind> for EdgeKindBuilder {
    fn build(self) -> (r: Option<EdgeKind>)
        ensures
            r == self@,
    {
        self.0
    }
}

impl Buildable<EdgeKindBuilder> for EdgeKind {
    fn builder() -> (r: EdgeKindBuilder) {
        EdgeKindBuilder::default()
    }
}

impl EdgeKindBuilder {
    /// Sets a node statement.
    pub fn node(self, kind: NodeKind, attributes: Option<Vec<Attribute>>) -> (r: Self)
        ensures
            r@ == Some(EdgeKind::Node(Node { kind, attributes })),
    {
        EdgeKindBuilder(Some(EdgeKind::Node(Node { kind, attributes })))
    }

    /// Sets an edge statement.
    pub fn edge(self, edge: Edge) -> (r: Self)
        ensures
            r@ == Some(EdgeKind::Edge(Box::new(edge))),
    {
        EdgeKindBuilder(Some(EdgeKind::Edge(Box::new(edge))))
    }

    /// Sets a subgraph statement.
    pub fn subgraph(self, subgraph: SubGraph) -> (r: Self)
        ensures
            r@ == Some(EdgeKind::SubGraph(subgraph)),
    {
        EdgeKindBuilder(Some(EdgeKind::SubGraph(subgraph)))
    }

    /// Sets a comment.
    pub fn comment(self, text: String) -> (r: Self)
        ensures
            r@ == Some(EdgeKind::Comment(text)),
    {
        EdgeKindBuilder(Some(EdgeKind::Comment(text)))
    }
}

} // verus!
