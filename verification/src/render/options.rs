use vstd::prelude::*;
use vstd::string::*;

use crate::render::ratio::Ratio;

verus! {

#[derive(Debug, Clone, Copy, PartialEq, Eq)]
pub enum PortsRepresentation {
    Blocks,
    Labels,
}

#[derive(Debug, Clone, Copy)]
pub struct Ports {
    pub representation: PortsRepresentation,
    pub grouping: bool,
    pub group_unbound: bool,
}

#[derive(Debug, Clone, Copy)]
pub struct Connections {
    pub hide: bool,
}

#[derive(Debug, Clone, Copy)]
pub struct GridOptions {
    pub cell_size_px: u32,
    pub cells_space_vertical: u32,
    pub cells_space_horizontal: u32,
    pub visible: bool,
    pub vpadding: u32,
    pub hpadding: u32,
    pub vmargin: u32,
    pub hmargin: u32,
}

#[derive(Debug, Clone, Copy)]
pub struct Labels {
    pub ports_short_name: bool,
    pub components_short_name: bool,
    pub composition_short_name: bool,
    pub port_label_max_len: usize,
    pub comp_label_max_len: usize,
}

#[derive(Debug)]
pub struct RectColor {
    pub stroke: String,
    pub fill: String,
}

impl RectColor {
    /// A pair of colors given by their CSS text.
    pub fn new(stroke: &str, fill: &str) -> (res: RectColor)
        ensures
            res.stroke@ == stroke@,
            res.fill@ == fill@,
    {
        RectColor { stroke: String::from_str(stroke), fill: String::from_str(fill) }
    }
}

#[derive(Debug)]
pub struct ColorScheme {
    pub composition_rect: RectColor,
    pub composition_label: RectColor,
    pub composition_as_component_rect: RectColor,
    pub component_rect: RectColor,
    pub selected_rect: RectColor,
    pub highlighted_rect: RectColor,
    pub matched_rect: RectColor,
    pub hovered_rect: RectColor,
    pub connection_line: RectColor,
    pub port_highlighted_rect: RectColor,
    pub port_rect: RectColor,
    pub port_unlinked_rect: RectColor,
    pub port_linked_rect: RectColor,
    pub port_grouped_rect: RectColor,
    pub port_pri_bagde: RectColor,
    pub port_pi_bagde: RectColor,
    pub port_ri_bagde: RectColor,
    pub port_index_label: RectColor,
    pub port_subbagde: RectColor,
    pub label_subtitle: RectColor,
    pub label: RectColor,
}

impl Default for ColorScheme {
    fn default() -> (res: Self)
        ensures
            res.composition_rect.stroke@ == "rgb(0,0,0)"@,
            res.composition_rect.fill@ == "rgb(200,200,230)"@,
            res.composition_label.stroke@ == "rgb(30,30,30)"@,
            res.composition_label.fill@ == "rgb(0,0,0)"@,
            res.composition_as_component_rect.stroke@ == "rgb(0,0,0)"@,
            res.composition_as_component_rect.fill@ == "rgb(250,200,200)"@,
            res.component_rect.stroke@ == "rgb(0,0,0)"@,
            res.component_rect.fill@ == "rgb(240,240,240)"@,
            res.selected_rect.stroke@ == "rgb(0,0,0)"@,
            res.selected_rect.fill@ == "rgb(100,150,100)"@,
            res.highlighted_rect.stroke@ == "rgb(50,50,50)"@,
            res.highlighted_rect.fill@ == "rgb(185,230,255)"@,
            res.matched_rect.stroke@ == "rgb(50,50,50)"@,
            res.matched_rect.fill@ == "rgb(195,190,190)"@,
            res.hovered_rect.stroke@ == "rgb(0,0,0)"@,
            res.hovered_rect.fill@ == "rgb(200,200,200)"@,
            res.connection_line.stroke@ == "rgb(30,30,30)"@,
            res.connection_line.fill@ == "rgb(30,30,30)"@,
            res.port_highlighted_rect.stroke@ == "rgb(0,0,0)"@,
            res.port_highlighted_rect.fill@ == "rgb(220,250,220)"@,
            res.port_rect.stroke@ == "rgb(50,50,50)"@,
            res.port_rect.fill@ == "rgb(240,240,240)"@,
            res.port_unlinked_rect.stroke@ == "rgb(50,50,50)"@,
            res.port_unlinked_rect.fill@ == "rgb(200,200,240)"@,
            res.port_linked_rect.stroke@ == "rgb(150,150,150)"@,
            res.port_linked_rect.fill@ == "rgb(250,250,250)"@,
            res.port_grouped_rect.stroke@ == "rgb(50,50,50)"@,
            res.port_grouped_rect.fill@ == "rgb(255,255,200)"@,
            res.port_pri_bagde.stroke@ == "rgb(40,140,40)"@,
            res.port_pri_bagde.fill@ == "rgb(255,255,255)"@,
            res.port_pi_bagde.stroke@ == "rgb(200,200,200)"@,
            res.port_pi_bagde.fill@ == "rgb(0,0,0)"@,
            res.port_ri_bagde.stroke@ == "rgb(100,100,100)"@,
            res.port_ri_bagde.fill@ == "rgb(255,255,255)"@,
            res.port_index_label.stroke@ == "rgb(0,0,0)"@,
            res.port_index_label.fill@ == "rgb(0,0,0)"@,
            res.port_subbagde.stroke@ == "rgb(240,240,240)"@,
            res.port_subbagde.fill@ == "rgb(25,25,25)"@,
            res.label_subtitle.stroke@ == "rgb(40,40,40)"@,
            res.label_subtitle.fill@ == "rgb(40,40,40)"@,
            res.label.stroke@ == "rgb(0,0,0)"@,
            res.label.fill@ == "rgb(0,0,0)"@,
    {
        Self {
            composition_rect: RectColor::new("rgb(0,0,0)", "rgb(200,200,230)"),
            composition_label: RectColor::new("rgb(30,30,30)", "rgb(0,0,0)"),
            composition_as_component_rect: RectColor::new("rgb(0,0,0)", "rgb(250,200,200)"),
            component_rect: RectColor::new("rgb(0,0,0)", "rgb(240,240,240)"),
            selected_rect: RectColor::new("rgb(0,0,0)", "rgb(100,150,100)"),
            highlighted_rect: RectColor::new("rgb(50,50,50)", "rgb(185,230,255)"),
            matched_rect: RectColor::new("rgb(50,50,50)", "rgb(195,190,190)"),
            hovered_rect: RectColor::new("rgb(0,0,0)", "rgb(200,200,200)"),
            connection_line: RectColor::new("rgb(30,30,30)", "rgb(30,30,30)"),
            port_highlighted_rect: RectColor::new("rgb(0,0,0)", "rgb(220,250,220)"),
            port_rect: RectColor::new("rgb(50,50,50)", "rgb(240,240,240)"),
            port_unlinked_rect: RectColor::new("rgb(50,50,50)", "rgb(200,200,240)"),
            port_linked_rect: RectColor::new("rgb(150,150,150)", "rgb(250,250,250)"),
            port_grouped_rect: RectColor::new("rgb(50,50,50)", "rgb(255,255,200)"),
            port_pri_bagde: RectColor::new("rgb(40,140,40)", "rgb(255,255,255)"),
            port_pi_bagde: RectColor::new("rgb(200,200,200)", "rgb(0,0,0)"),
            port_ri_bagde: RectColor::new("rgb(100,100,100)", "rgb(255,255,255)"),
            port_index_label: RectColor::new("rgb(0,0,0)", "rgb(0,0,0)"),
            port_subbagde: RectColor::new("rgb(240,240,240)", "rgb(25,25,25)"),
            label_subtitle: RectColor::new("rgb(40,40,40)", "rgb(40,40,40)"),
            label: RectColor::new("rgb(0,0,0)", "rgb(0,0,0)"),
        }
    }
}

#[derive(Debug)]
pub struct Options {
    pub ports: Ports,
    pub connections: Connections,
    pub grid: GridOptions,
    pub labels: Labels,
    pub ratio: u8,
    pub font: String,
    pub scheme: ColorScheme,
}

impl Options {
    pub fn ratio(&self) -> (res: Ratio)
        ensures
            res.ratio == self.ratio,
    {
        Ratio { ratio: self.ratio }
    }
}

impl Default for Options {
    fn default() -> (res: Self)
        ensures
            res.ports.representation == PortsRepresentation::Blocks,
            res.ports.grouping,
            res.ports.group_unbound,
            !res.connections.hide,
            res.grid.vpadding == 3,
            res.grid.hpadding == 5,
            res.grid.vmargin == 0,
            res.grid.hmargin == 5,
            res.grid.cell_size_px == 25,
            res.grid.cells_space_vertical == 3,
            res.grid.cells_space_horizontal == 3,
            res.grid.visible,
            res.labels.ports_short_name,
            res.labels.components_short_name,
            res.labels.composition_short_name,
            res.labels.port_label_max_len == 16,
            res.labels.comp_label_max_len == 12,
            res.ratio == 1,
            res.font@ == "Roboto, sans-serif"@,
            res.scheme.composition_rect.stroke@ == "rgb(0,0,0)"@,
            res.scheme.composition_rect.fill@ == "rgb(200,200,230)"@,
            res.scheme.composition_label.stroke@ == "rgb(30,30,30)"@,
            res.scheme.composition_label.fill@ == "rgb(0,0,0)"@,
            res.scheme.composition_as_component_rect.stroke@ == "rgb(0,0,0)"@,
            res.scheme.composition_as_component_rect.fill@ == "rgb(250,200,200)"@,
            res.scheme.component_rect.stroke@ == "rgb(0,0,0)"@,
            res.scheme.component_rect.fill@ == "rgb(240,240,240)"@,
            res.scheme.selected_rect.stroke@ == "rgb(0,0,0)"@,
            res.scheme.selected_rect.fill@ == "rgb(100,150,100)"@,
            res.scheme.highlighted_rect.stroke@ == "rgb(50,50,50)"@,
            res.scheme.highlighted_rect.fill@ == "rgb(185,230,255)"@,
            res.scheme.matched_rect.stroke@ == "rgb(50,50,50)"@,
            res.scheme.matched_rect.fill@ == "rgb(195,190,190)"@,
            res.scheme.hovered_rect.stroke@ == "rgb(0,0,0)"@,
            res.scheme.hovered_rect.fill@ == "rgb(200,200,200)"@,
            res.scheme.connection_line.stroke@ == "rgb(30,30,30)"@,
            res.scheme.connection_line.fill@ == "rgb(30,30,30)"@,
            res.scheme.port_highlighted_rect.stroke@ == "rgb(0,0,0)"@,
            res.scheme.port_highlighted_rect.fill@ == "rgb(220,250,220)"@,
            res.scheme.port_rect.stroke@ == "rgb(50,50,50)"@,
            res.scheme.port_rect.fill@ == "rgb(240,240,240)"@,
            res.scheme.port_unlinked_rect.stroke@ == "rgb(50,50,50)"@,
            res.scheme.port_unlinked_rect.fill@ == "rgb(200,200,240)"@,
            res.scheme.port_linked_rect.stroke@ == "rgb(150,150,150)"@,
            res.scheme.port_linked_rect.fill@ == "rgb(250,250,250)"@,
            res.scheme.port_grouped_rect.stroke@ == "rgb(50,50,50)"@,
            res.scheme.port_grouped_rect.fill@ == "rgb(255,255,200)"@,
            res.scheme.port_pri_bagde.stroke@ == "rgb(40,140,40)"@,
            res.scheme.port_pri_bagde.fill@ == "rgb(255,255,255)"@,
            res.scheme.port_pi_bagde.stroke@ == "rgb(200,200,200)"@,
            res.scheme.port_pi_bagde.fill@ == "rgb(0,0,0)"@,
            res.scheme.port_ri_bagde.stroke@ == "rgb(100,100,100)"@,
            res.scheme.port_ri_bagde.fill@ == "rgb(255,255,255)"@,
            res.scheme.port_index_label.stroke@ == "rgb(0,0,0)"@,
            res.scheme.port_index_label.fill@ == "rgb(0,0,0)"@,
            res.scheme.port_subbagde.stroke@ == "rgb(240,240,240)"@,
            res.scheme.port_subbagde.fill@ == "rgb(25,25,25)"@,
            res.scheme.label_subtitle.stroke@ == "rgb(40,40,40)"@,
            res.scheme.label_subtitle.fill@ == "rgb(40,40,40)"@,
            res.scheme.label.stroke@ == "rgb(0,0,0)"@,
            res.scheme.label.fill@ == "rgb(0,0,0)"@,
    {
        Options {
            ports: Ports {
                representation: PortsRepresentation::Blocks,
                grouping: true,
                group_unbound: true,
            },
            connections: Connections { hide: false },
            grid: GridOptions {
                vpadding: 3,
                hpadding: 5,
                vmargin: 0,
                hmargin: 5,
                cell_size_px: 25,
                cells_space_vertical: 3,
                cells_space_horizontal: 3,
                visible: true,
            },
            labels: Labels {
                ports_short_name: true,
                components_short_name: true,
                composition_short_name: true,
                port_label_max_len: 16,
                comp_label_max_len: 12,
            },
            ratio: 1,
            font: String::from_str("Roboto, sans-serif"),
            scheme: ColorScheme::default(),
        }
    }
}

} // verus!
