[package]
name = "raster_burn"
version = "0.1.0"
edition = "2021"
publish = false

[dependencies]
gdal = "*"
geo = "*"
geo-types = "*"
geojson = "*"
num_cpus = "1"
structopt = "0.3"
wkt = "*"
