/// The value model: the `Node` tree, its numeric sub-union and views.
pub mod node;
